//! The per-stream keyframe index.
//!
//! An export chooses between a free stream copy and a re-encode purely from
//! whether a cut point lands on a keyframe, so the index is exact:
//!
//! - **Every keyframe is enumerated** from packets, never inferred from a
//!   nominal group length.
//! - **Timestamps are the stream's own**, in its time base.
//! - **Open groups are identified** (see [`nal`]), because a keyframe whose
//!   leading pictures reference the previous group widens the window a cut
//!   depends on.
//! - **It is lazy.** A query into a region nobody has read says which region
//!   to read ([`Query::Unread`]); [`merge`] takes in what was read.
//! - **It knows every frame**, not only the keyframes, so stepping moves by
//!   real timestamps.
pub mod coverage;
pub mod nal;
pub mod packet;
pub mod region;
pub mod table;
pub mod witness;

use crate::num::{clamped, larger, max, min, saturating_add, saturating_sub};
use crate::probe::Rational;
use crate::text::{characters, contains, holds_text};
use coverage::Coverage;
pub use nal::PictureKind;
use packet::Packet;
use std::collections::BTreeMap;
pub use table::{GopKind, Keyframe};
use table::{first_at_or_after, first_frame, newest_at_or_before, newest_frame};
use table::{Entry, FrameTable, KeyTable};
use vstd::prelude::*;

verus! {

/// Packets after a keyframe that must be seen before its group is classified
/// without having seen the next keyframe. Leading pictures come straight after
/// their keyframe in decode order.
pub const LEADING_WINDOW: u32 = 16;

/// The version of a stored index. One with any other version is rebuilt.
pub const FORMAT_VERSION: u32 = 2;

/// Why the index could not answer.
#[derive(Debug, Clone, Copy, PartialEq, Eq, Structural)]
pub enum IndexError {
    /// The stream is not a video stream of this file.
    NoSuchStream(u32),
}

/// An answer, or the position of a region that has to be read first.
#[derive(Debug, PartialEq, Eq)]
pub enum Query<T> {
    Known(T),
    /// Read the region that starts at this tick, and ask again.
    Unread(i64),
}

/// The index of one video stream.
#[derive(Debug)]
pub struct StreamIndex {
    pub stream: u32,
    pub time_base: Rational,
    /// Ticks from the start of the stream to its end, where known.
    pub end: Option<i64>,
    pub entries: KeyTable,
    pub coverage: Coverage,
    /// The presentation timestamp of every shown frame read so far.
    pub frames: FrameTable,
    /// Where `frames` is complete. Narrower than `coverage` at a region's end.
    pub frame_coverage: Coverage,
}

/// Everything learned from reading one region.
#[derive(Debug)]
pub struct Region {
    pub packets: Vec<Packet>,
    /// The region ended at the end of the stream rather than at its limit.
    pub reached_end: bool,
    /// The requested end, in ticks.
    pub limit: i64,
    /// How far before `limit` the frame list is complete.
    pub margin: i64,
}

/// Open or closed, from what the picture is and what follows it: a picture
/// that closes its group by nature is closed whatever follows; any other is
/// open exactly when leading pictures follow.
pub open spec fn gop_kind(picture: Option<PictureKind>, has_leading_pictures: bool) -> GopKind {
    if (picture matches Some(kind) && kind.closing()) || !has_leading_pictures {
        GopKind::Closed
    } else {
        GopKind::Open
    }
}

/// Open or closed, from what the picture is and what follows it.
pub fn classify(picture: Option<PictureKind>, has_leading_pictures: bool) -> (kind: GopKind)
    ensures
        kind == gop_kind(picture, has_leading_pictures),
{
    let closes = match picture {
        Some(kind) => kind.closes_gop(),
        None => false,
    };
    if closes || !has_leading_pictures {
        GopKind::Closed
    } else {
        GopKind::Open
    }
}

/// What reading packets in decode order has established so far.
pub struct Reading {
    pub entries: Map<i64, Entry>,
    pub frames: Set<i64>,
    /// The keyframe whose group is being read.
    pub current: Option<i64>,
    /// The first keyframe of this reading.
    pub first_key: Option<i64>,
}

/// The timestamp a keyframe packet is filed under.
pub open spec fn key_tick(packet: Packet) -> Option<i64> {
    if packet.pts is Some {
        packet.pts
    } else {
        packet.dts
    }
}

/// A keyframe seen for the first time.
pub open spec fn fresh_entry(packet: Packet, pts: i64, pictures: Map<i64, PictureKind>) -> Entry {
    Entry {
        keyframe: Keyframe {
            pts,
            dts: packet.dts,
            pos: packet.pos,
            gop: GopKind::Closed,
            picture: if pictures.contains_key(pts) {
                Some(pictures[pts])
            } else {
                None
            },
            has_leading_pictures: false,
        },
        size: packet.size,
        observed_after: 0,
        closed_out: false,
    }
}

/// The entries with the group being read closed out.
pub open spec fn closed_out(entries: Map<i64, Entry>, current: Option<i64>) -> Map<i64, Entry> {
    match current {
        Some(p) => if entries.contains_key(p) {
            entries.insert(p, Entry { closed_out: true, ..entries[p] })
        } else {
            entries
        },
        None => entries,
    }
}

/// An entry with one more packet of its group seen.
pub open spec fn observed(entry: Entry, packet: Packet) -> Entry {
    let leading = packet.pts matches Some(pts) && pts < entry.keyframe.pts;
    Entry {
        observed_after: if entry.observed_after < u32::MAX {
            (entry.observed_after + 1) as u32
        } else {
            u32::MAX
        },
        keyframe: Keyframe {
            has_leading_pictures: entry.keyframe.has_leading_pictures || leading,
            ..entry.keyframe
        },
        ..entry
    }
}

/// One more packet read. A shown packet's timestamp joins the frames. A
/// keyframe closes out the one before it and starts its own group afresh,
/// keeping what was learned of it earlier; any other packet is observed as
/// part of the group being read.
pub open spec fn read_one(
    reading: Reading,
    packet: Packet,
    pictures: Map<i64, PictureKind>,
) -> Reading {
    let frames = match packet.pts {
        Some(pts) => if packet.discard {
            reading.frames
        } else {
            reading.frames.insert(pts)
        },
        None => reading.frames,
    };
    if packet.key {
        match key_tick(packet) {
            Some(pts) => {
                let closed = closed_out(reading.entries, reading.current);
                let entry = if closed.contains_key(pts) {
                    closed[pts]
                } else {
                    fresh_entry(packet, pts, pictures)
                };
                Reading {
                    entries: closed.insert(pts, Entry { observed_after: 0, ..entry }),
                    frames,
                    current: Some(pts),
                    first_key: if reading.first_key is Some {
                        reading.first_key
                    } else {
                        Some(pts)
                    },
                }
            },
            None => Reading { frames, ..reading },
        }
    } else {
        match reading.current {
            Some(p) => if reading.entries.contains_key(p) {
                Reading {
                    entries: reading.entries.insert(p, observed(reading.entries[p], packet)),
                    frames,
                    ..reading
                }
            } else {
                Reading { frames, ..reading }
            },
            None => Reading { frames, ..reading },
        }
    }
}

/// All of `packets` read in turn.
pub open spec fn read_all(
    reading: Reading,
    packets: Seq<Packet>,
    pictures: Map<i64, PictureKind>,
) -> Reading
    decreases packets.len(),
{
    if packets.len() == 0 {
        reading
    } else {
        read_one(read_all(reading, packets.drop_last(), pictures), packets.last(), pictures)
    }
}

/// An entry with its group classified, once enough of it has been seen.
pub open spec fn settled(entry: Entry) -> Entry {
    if entry.closed_out || entry.observed_after >= LEADING_WINDOW {
        Entry {
            keyframe: Keyframe {
                gop: gop_kind(entry.keyframe.picture, entry.keyframe.has_leading_pictures),
                ..entry.keyframe
            },
            ..entry
        }
    } else {
        entry
    }
}

/// What a region's packets establish, on top of `entries` and `frames`.
pub open spec fn region_reading(
    entries: Map<i64, Entry>,
    frames: Set<i64>,
    packets: Seq<Packet>,
    pictures: Map<i64, PictureKind>,
) -> Reading {
    read_all(Reading { entries, frames, current: None, first_key: None }, packets, pictures)
}

/// The entries after a region has been read.
pub open spec fn region_entries(reading: Reading, reached_end: bool) -> Map<i64, Entry> {
    let closed = if reached_end {
        closed_out(reading.entries, reading.current)
    } else {
        reading.entries
    };
    closed.map_values(|entry: Entry| settled(entry))
}

/// Where a region's coverage begins: at the first keyframe read or at the
/// position asked for, whichever is earlier; without bound where the read
/// began at the start of the stream.
pub open spec fn region_start(first_key: Option<i64>, from: i64) -> i64 {
    if from <= 0 {
        i64::MIN
    } else {
        match first_key {
            Some(key) => if key < from {
                key
            } else {
                from
            },
            None => from,
        }
    }
}

/// Where a region's coverage ends.
pub open spec fn region_end(reached_end: bool, limit: int) -> i64 {
    if reached_end {
        i64::MAX
    } else {
        clamped(limit)
    }
}

impl StreamIndex {
    /// The tables are sorted.
    pub open spec fn wf(&self) -> bool {
        self.entries.wf() && self.coverage.wf() && self.frames.wf() && self.frame_coverage.wf()
    }

    /// Indexed from the first tick to the end of time.
    pub open spec fn whole(&self) -> bool {
        forall|tick: int| 0 <= tick < i64::MAX ==> #[trigger] self.coverage.has(tick)
    }

    /// Whether the stream is indexed end to end.
    pub fn complete(&self) -> (yes: bool)
        requires
            self.wf(),
        ensures
            yes == self.whole(),
    {
        match self.coverage.end_of_range(0) {
            Some(end) => {
                if end == i64::MAX {
                    true
                } else {
                    assert(!self.coverage.has(end as int));
                    false
                }
            },
            None => {
                assert(!self.coverage.has(0));
                false
            },
        }
    }

    /// The first tick from `from` on that has not been read, if there is one.
    pub fn next_unread(&self, from: i64) -> (tick: Option<i64>)
        requires
            self.wf(),
        ensures
            match tick {
                Some(tick) => {
                    &&& from <= tick && !self.coverage.has(tick as int)
                    &&& forall|t: int| from <= t < tick ==> #[trigger] self.coverage.has(t)
                },
                None => {
                    &&& self.coverage.has(from as int)
                    &&& forall|t: int| from <= t < i64::MAX ==> #[trigger] self.coverage.has(t)
                },
            },
    {
        match self.coverage.end_of_range(from) {
            Some(end) => if end == i64::MAX {
                None
            } else {
                Some(end)
            },
            None => Some(from),
        }
    }
}

/// Whether a region's read reached the end of its stream: by the stream's
/// known length where there is one, and otherwise by stopping well short of
/// the limit.
pub open spec fn ran_out(
    packets: Seq<Packet>,
    stream_end: Option<i64>,
    limit: i64,
    two_seconds: i64,
) -> bool {
    match stream_end {
        Some(end) => limit >= end,
        None => forall|i: int|
            0 <= i < packets.len() && (#[trigger] packets[i]).pts is Some ==> clamped(
                packets[i].pts->0 + two_seconds,
            ) < limit,
    }
}

/// Whether a region's read reached the end of its stream. A listing stops
/// before the first packet past its limit, so the last timestamp read says
/// nothing where the stream's length is known.
pub fn reached_end(
    packets: &Vec<Packet>,
    stream_end: Option<i64>,
    limit: i64,
    two_seconds: i64,
) -> (yes: bool)
    ensures
        yes == ran_out(packets@, stream_end, limit, two_seconds),
{
    if let Some(end) = stream_end {
        return limit >= end;
    }
    let mut i: usize = 0;
    while i < packets.len()
        invariant
            i <= packets.len(),
            stream_end is None,
            forall|j: int|
                0 <= j < i && (#[trigger] packets@[j]).pts is Some ==> clamped(
                    packets@[j].pts->0 + two_seconds,
                ) < limit,
        decreases packets.len() - i,
    {
        if let Some(pts) = packets[i].pts {
            if saturating_add(pts, two_seconds) >= limit {
                assert(packets@[i as int].pts is Some);
                return false;
            }
        }
        i = i + 1;
    }
    true
}

/// Close out the group being read.
fn close_out(entries: &mut KeyTable, current: Option<i64>)
    requires
        old(entries).wf(),
        forall|k: i64| #[trigger]
            old(entries)@.contains_key(k) ==> old(entries)@[k].keyframe.pts == k,
    ensures
        final(entries).wf(),
        final(entries)@ == closed_out(old(entries)@, current),
{
    if let Some(p) = current {
        if let Some(entry) = entries.get(p) {
            let mut entry: Entry = entry;
            entry.closed_out = true;
            entries.put(entry);
        }
    }
}

/// Every entry of a table is filed under its own timestamp.
pub open spec fn filed(entries: Map<i64, Entry>) -> bool {
    forall|k: i64| #[trigger] entries.contains_key(k) ==> entries[k].keyframe.pts == k
}

/// A sorted table's entries are filed under their own timestamps.
proof fn lemma_filed(table: &KeyTable)
    requires
        table.wf(),
    ensures
        filed(table@),
{
    assert forall|k: i64| #[trigger] table@.contains_key(k) implies table@[k].keyframe.pts == k by {
        let i = choose|i: int|
            0 <= i < table.entries@.len() && (#[trigger] table.entries@[i]).keyframe.pts == k;
        table::lemma_entry_at(table.entries@, i);
    }
}

/// Take one packet into the tables.
fn take_packet(
    index: &mut StreamIndex,
    current: Option<i64>,
    first_key: Option<i64>,
    packet: Packet,
    pictures: &BTreeMap<i64, PictureKind>,
) -> (place: (Option<i64>, Option<i64>))
    requires
        old(index).wf(),
    ensures
        final(index).wf(),
        ({
            let before = Reading {
                entries: old(index).entries@,
                frames: old(index).frames@,
                current,
                first_key,
            };
            let after = read_one(before, packet, pictures@);
            &&& final(index).entries@ == after.entries
            &&& final(index).frames@ == after.frames
            &&& place == (after.current, after.first_key)
        }),
        final(index).stream == old(index).stream,
        final(index).time_base == old(index).time_base,
        final(index).end == old(index).end,
        final(index).coverage == old(index).coverage,
        final(index).frame_coverage == old(index).frame_coverage,
{
    broadcast use vstd::std_specs::btree::group_btree_axioms;

    if !packet.discard {
        if let Some(pts) = packet.pts {
            index.frames.insert(pts);
        }
    }
    proof {
        lemma_filed(&index.entries);
    }
    if packet.key {
        let tick: Option<i64> = match packet.pts {
            Some(pts) => Some(pts),
            None => packet.dts,
        };
        let pts: i64 = match tick {
            Some(pts) => pts,
            None => {
                return (current, first_key);
            },
        };
        close_out(&mut index.entries, current);
        proof {
            lemma_filed(&index.entries);
        }
        let mut entry: Entry = match index.entries.get(pts) {
            Some(entry) => entry,
            None => Entry {
                keyframe: Keyframe {
                    pts,
                    dts: packet.dts,
                    pos: packet.pos,
                    gop: GopKind::Closed,
                    picture: match pictures.get(&pts) {
                        Some(kind) => Some(*kind),
                        None => None,
                    },
                    has_leading_pictures: false,
                },
                size: packet.size,
                observed_after: 0,
                closed_out: false,
            },
        };
        // A keyframe seen again, from a later region that started on it, is
        // observed afresh: its group is counted from zero.
        entry.observed_after = 0;
        index.entries.put(entry);
        let first: Option<i64> = match first_key {
            Some(key) => Some(key),
            None => Some(pts),
        };
        (Some(pts), first)
    } else {
        if let Some(p) = current {
            if let Some(entry) = index.entries.get(p) {
                let mut entry: Entry = entry;
                if entry.observed_after < u32::MAX {
                    entry.observed_after = entry.observed_after + 1;
                }
                if let Some(pts) = packet.pts {
                    if pts < entry.keyframe.pts {
                        entry.keyframe.has_leading_pictures = true;
                    }
                }
                index.entries.put(entry);
            }
        }
        (current, first_key)
    }
}

/// Classify every group of which enough has been seen.
fn settle(table: &mut KeyTable)
    requires
        old(table).wf(),
    ensures
        final(table).wf(),
        final(table)@ == old(table)@.map_values(|entry: Entry| settled(entry)),
{
    let ghost before = table.entries@;
    let n: usize = table.entries.len();
    let mut i: usize = 0;
    while i < n
        invariant
            i <= n == table.entries.len() == before.len(),
            forall|j: int| 0 <= j < i ==> #[trigger] table.entries@[j] == settled(before[j]),
            forall|j: int| i <= j < n ==> #[trigger] table.entries@[j] == before[j],
        decreases n - i,
    {
        let mut entry: Entry = table.entries[i];
        if entry.closed_out || entry.observed_after >= LEADING_WINDOW {
            entry.keyframe.gop = classify(
                entry.keyframe.picture,
                entry.keyframe.has_leading_pictures,
            );
        }
        table.entries.set(i, entry);
        i = i + 1;
    }
    proof {
        let after = table.entries@;
        assert forall|a: int, b: int| 0 <= a < b < after.len() implies (
        #[trigger] after[a]).keyframe.pts < (#[trigger] after[b]).keyframe.pts by {
            assert(before[a].keyframe.pts < before[b].keyframe.pts);
        }
        let mapped = table::table_of(before).map_values(|entry: Entry| settled(entry));
        assert forall|k: i64| #[trigger] table@.contains_key(k) == mapped.contains_key(k) by {
            if table::listed_at(after, k) {
                let j = choose|j: int|
                    0 <= j < after.len() && (#[trigger] after[j]).keyframe.pts == k;
                assert(before[j].keyframe.pts == k);
            }
            if table::listed_at(before, k) {
                let j = choose|j: int|
                    0 <= j < before.len() && (#[trigger] before[j]).keyframe.pts == k;
                assert(after[j].keyframe.pts == k);
            }
        }
        assert forall|k: i64| #[trigger] table@.contains_key(k) implies table@[k] == mapped[k] by {
            let j = choose|j: int| 0 <= j < after.len() && (#[trigger] after[j]).keyframe.pts == k;
            table::lemma_entry_at(after, j);
            table::lemma_entry_at(before, j);
        }
        assert(table@ =~= mapped);
    }
}

/// Merge one region's packets into the index.
pub fn merge(
    index: &mut StreamIndex,
    region: &Region,
    from: i64,
    pictures: &BTreeMap<i64, PictureKind>,
)
    requires
        old(index).wf(),
    ensures
        final(index).wf(),
        final(index).stream == old(index).stream,
        final(index).time_base == old(index).time_base,
        final(index).end == old(index).end,
        ({
            let reading = region_reading(
                old(index).entries@,
                old(index).frames@,
                region.packets@,
                pictures@,
            );
            let start = region_start(reading.first_key, from);
            let end = region_end(region.reached_end, region.limit as int);
            let frames_end = region_end(region.reached_end, region.limit - region.margin);
            &&& final(index).entries@ == region_entries(reading, region.reached_end)
            &&& final(index).frames@ == reading.frames
            &&& forall|tick: int|
                #![trigger final(index).coverage.has(tick)]
                final(index).coverage.has(tick) == (old(index).coverage.has(tick) || start <= tick
                    < end)
            &&& forall|tick: int|
                #![trigger final(index).frame_coverage.has(tick)]
                final(index).frame_coverage.has(tick) == (old(index).frame_coverage.has(tick)
                    || start <= tick < frames_end)
        }),
{
    let mut current: Option<i64> = None;
    let mut first_key: Option<i64> = None;
    let mut i: usize = 0;
    let ghost start_reading = Reading {
        entries: index.entries@,
        frames: index.frames@,
        current: None,
        first_key: None,
    };
    assert(region.packets@.take(0).len() == 0);
    while i < region.packets.len()
        invariant
            i <= region.packets.len(),
            index.wf(),
            index.stream == old(index).stream,
            index.time_base == old(index).time_base,
            index.end == old(index).end,
            index.coverage == old(index).coverage,
            index.frame_coverage == old(index).frame_coverage,
            ({
                let reading = read_all(
                    start_reading,
                    region.packets@.take(i as int),
                    pictures@,
                );
                &&& index.entries@ == reading.entries
                &&& index.frames@ == reading.frames
                &&& current == reading.current
                &&& first_key == reading.first_key
            }),
        decreases region.packets.len() - i,
    {
        let place = take_packet(index, current, first_key, region.packets[i], pictures);
        current = place.0;
        first_key = place.1;
        assert(region.packets@.take(i + 1).drop_last() =~= region.packets@.take(i as int));
        assert(region.packets@.take(i + 1).last() == region.packets@[i as int]);
        i = i + 1;
    }
    assert(region.packets@.take(i as int) =~= region.packets@);
    if region.reached_end {
        proof {
            lemma_filed(&index.entries);
        }
        close_out(&mut index.entries, current);
    }
    settle(&mut index.entries);
    let start: i64 = if from <= 0 {
        i64::MIN
    } else {
        match first_key {
            Some(key) => min(key, from),
            None => from,
        }
    };
    let end: i64 = if region.reached_end {
        i64::MAX
    } else {
        region.limit
    };
    index.coverage.add(start, end);
    let frames_end: i64 = if region.reached_end {
        i64::MAX
    } else {
        saturating_sub(region.limit, region.margin)
    };
    index.frame_coverage.add(start, frames_end);
}

/// Whether a container's format name is an ISO base media one, where a
/// packet's position is exactly its sample's first byte.
pub fn is_iso_bmff(format_name: &str) -> (yes: bool)
    ensures
        yes == (holds_text(format_name@, "mp4"@) || holds_text(format_name@, "mov"@)),
{
    let name: Vec<char> = characters(format_name);
    let mp4: Vec<char> = characters("mp4");
    let mov: Vec<char> = characters("mov");
    contains(&name, &mp4) || contains(&name, &mov)
}

/// A video stream of the file to be indexed.
#[derive(Debug, Clone, Copy, PartialEq, Eq, Structural)]
pub struct VideoTrack {
    pub index: u32,
    pub time_base: Option<Rational>,
    /// The stream's length in ticks, where known.
    pub end: Option<i64>,
    /// A cover image rather than moving pictures.
    pub is_attached_picture: bool,
}

/// A stored index.
#[derive(Debug)]
pub struct Stored {
    pub version: u32,
    pub streams: Vec<StreamIndex>,
}

/// The keyframe index of every video stream of one file, in stream order.
#[derive(Debug)]
pub struct KeyframeIndex {
    pub streams: Vec<StreamIndex>,
}

/// The streams of `tracks` that are indexed: every one but cover images.
pub open spec fn indexed_tracks(tracks: Seq<VideoTrack>) -> Seq<VideoTrack>
    decreases tracks.len(),
{
    if tracks.len() == 0 {
        Seq::empty()
    } else {
        let before = indexed_tracks(tracks.drop_last());
        if tracks.last().is_attached_picture {
            before
        } else {
            before.push(tracks.last())
        }
    }
}

/// The streams' numbers increase.
pub open spec fn in_stream_order(streams: Seq<StreamIndex>) -> bool {
    forall|i: int, j: int|
        0 <= i < j < streams.len() ==> (#[trigger] streams[i]).stream < (#[trigger] streams[j]).stream
}

/// `index` knows nothing of `track` yet.
pub open spec fn untouched(index: &StreamIndex, track: VideoTrack) -> bool {
    &&& index.stream == track.index
    &&& index.time_base == (match track.time_base {
        Some(base) => base,
        None => Rational { num: 1, den: 1 },
    })
    &&& index.end == track.end
    &&& index.entries@ == Map::<i64, Entry>::empty()
    &&& index.frames@ == Set::<i64>::empty()
    &&& index.coverage.0@.len() == 0
    &&& index.frame_coverage.0@.len() == 0
}

/// `stream` is one of the streams of `index`.
pub open spec fn numbered(index: &KeyframeIndex, stream: u32) -> bool {
    exists|i: int| 0 <= i < index.streams@.len() && (#[trigger] index.streams@[i]).stream == stream
}

/// `gap` is the first tick from `pts` on that is not read.
pub open spec fn first_gap(coverage: &Coverage, pts: i64, gap: i64) -> bool {
    &&& pts <= gap && !coverage.has(gap as int)
    &&& forall|t: int| pts <= t < gap ==> #[trigger] coverage.has(t)
}

/// The first tick from `pts` on that is not read.
fn gap_from(coverage: &Coverage, pts: i64) -> (gap: i64)
    requires
        coverage.wf(),
    ensures
        first_gap(coverage, pts, gap),
{
    match coverage.end_of_range(pts) {
        Some(end) => end,
        None => pts,
    }
}

impl StreamIndex {
    /// An index of `track` that knows nothing yet.
    pub fn new(track: VideoTrack) -> (index: StreamIndex)
        ensures
            index.wf(),
            untouched(&index, track),
    {
        StreamIndex {
            stream: track.index,
            time_base: match track.time_base {
                Some(base) => base,
                None => Rational { num: 1, den: 1 },
            },
            end: track.end,
            entries: KeyTable::new(),
            coverage: Coverage(Vec::new()),
            frames: FrameTable::new(),
            frame_coverage: Coverage(Vec::new()),
        }
    }

    /// The keyframe at or before `pts`, or the region to read for it.
    pub open spec fn answers_before(&self, pts: i64, query: Query<Option<Keyframe>>) -> bool {
        let tick = larger(pts as int, 0);
        match query {
            Query::Unread(from) => !self.coverage.has(tick) && from == tick,
            Query::Known(keyframe) => self.coverage.has(tick) && newest_at_or_before(
                self.entries@,
                pts,
                keyframe,
            ),
        }
    }

    /// Whether `pts` must be read before anything at or before it is known.
    fn unread(&self, pts: i64) -> (tick: Option<i64>)
        ensures
            tick == (if self.coverage.has(larger(pts as int, 0)) {
                None
            } else {
                Some(larger(pts as int, 0) as i64)
            }),
    {
        let tick: i64 = max(pts, 0);
        if self.coverage.contains(tick) {
            None
        } else {
            Some(tick)
        }
    }

    /// The nearest keyframe at or before `pts`; nothing only before the
    /// stream's first keyframe.
    pub fn at_or_before(&self, pts: i64) -> (query: Query<Option<Keyframe>>)
        requires
            self.wf(),
        ensures
            self.answers_before(pts, query),
    {
        match self.unread(pts) {
            Some(tick) => Query::Unread(tick),
            None => Query::Known(self.entries.at_or_before(pts)),
        }
    }

    /// The nearest keyframe at or after `pts`, once every tick up to it is
    /// read: a gap may hold a nearer one. Until then the first unread tick;
    /// nothing where everything from `pts` on is read and holds none.
    pub fn at_or_after(&self, pts: i64) -> (query: Query<Option<Keyframe>>)
        requires
            self.wf(),
        ensures
            match query {
                Query::Known(Some(keyframe)) => {
                    &&& first_at_or_after(self.entries@, pts, Some(keyframe))
                    &&& forall|t: int| pts <= t <= keyframe.pts ==> #[trigger] self.coverage.has(t)
                },
                Query::Known(None) => {
                    &&& first_at_or_after(self.entries@, pts, None)
                    &&& forall|t: int| pts <= t < i64::MAX ==> #[trigger] self.coverage.has(t)
                },
                Query::Unread(tick) => exists|gap: i64|
                    {
                        &&& #[trigger] first_gap(&self.coverage, pts, gap)
                        &&& tick == larger(gap as int, 0)
                        &&& forall|k: i64| #[trigger]
                            self.entries@.contains_key(k) && pts <= k ==> gap <= k
                        &&& gap == i64::MAX ==> self.entries@.contains_key(gap)
                    },
            },
    {
        let gap: i64 = gap_from(&self.coverage, pts);
        match self.entries.at_or_after(pts) {
            Some(keyframe) => if keyframe.pts < gap {
                Query::Known(Some(keyframe))
            } else {
                Query::Unread(max(gap, 0))
            },
            None => if gap == i64::MAX {
                Query::Known(None)
            } else {
                Query::Unread(max(gap, 0))
            },
        }
    }

    /// Whether `pts` is exactly a keyframe's presentation timestamp.
    pub fn is_keyframe(&self, pts: i64) -> (query: Query<bool>)
        requires
            self.wf(),
        ensures
            query == (if self.coverage.has(larger(pts as int, 0)) {
                Query::Known(self.entries@.contains_key(pts))
            } else {
                Query::Unread(larger(pts as int, 0) as i64)
            }),
    {
        match self.unread(pts) {
            Some(tick) => Query::Unread(tick),
            None => Query::Known(self.entries.get(pts).is_some()),
        }
    }

    /// What is known of the newest frame at or before `pts`: nothing until that
    /// tick is read.
    pub open spec fn answers_frame(&self, pts: i64, query: Query<Option<i64>>) -> bool {
        match query {
            Query::Unread(from) => !self.frame_coverage.has(pts as int) && from == larger(
                pts as int,
                0,
            ),
            Query::Known(frame) => self.frame_coverage.has(pts as int) && newest_frame(
                self.frames@,
                pts,
                frame,
            ),
        }
    }

    /// What is known of the first frame after `pts`: nothing until every tick
    /// up to it is read.
    pub open spec fn answers_frame_after(&self, pts: i64, query: Query<Option<i64>>) -> bool {
        if pts == i64::MAX {
            query == Query::<Option<i64>>::Known(None)
        } else {
            let next = (pts + 1) as i64;
            match query {
                Query::Known(Some(frame)) => {
                    &&& first_frame(self.frames@, next, Some(frame))
                    &&& forall|t: int|
                        next <= t <= frame ==> #[trigger] self.frame_coverage.has(t)
                },
                Query::Known(None) => {
                    &&& first_frame(self.frames@, next, None)
                    &&& forall|t: int|
                        next <= t < i64::MAX ==> #[trigger] self.frame_coverage.has(t)
                },
                Query::Unread(tick) => exists|gap: i64|
                    {
                        &&& #[trigger] first_gap(&self.frame_coverage, next, gap)
                        &&& tick == larger(gap as int, 0)
                        &&& forall|k: i64| #[trigger]
                            self.frames@.contains(k) && next <= k ==> gap <= k
                        &&& gap == i64::MAX ==> self.frames@.contains(gap)
                    },
            }
        }
    }

    /// The frame shown at `pts`: the newest frame whose presentation timestamp
    /// is at or before it.
    pub fn frame_at_or_before(&self, pts: i64) -> (query: Query<Option<i64>>)
        requires
            self.wf(),
        ensures
            self.answers_frame(pts, query),
    {
        if self.frame_coverage.contains(pts) {
            Query::Known(self.frames.at_or_before(pts))
        } else {
            Query::Unread(max(pts, 0))
        }
    }

    /// The last frame shown strictly before `pts`.
    pub fn frame_before(&self, pts: i64) -> (query: Query<Option<i64>>)
        requires
            self.wf(),
        ensures
            self.answers_frame(clamped(pts - 1), query),
    {
        self.frame_at_or_before(saturating_sub(pts, 1))
    }

    /// The first frame shown strictly after `pts`, once every tick up to it is
    /// read; until then the first unread tick; nothing where everything after
    /// `pts` is read and holds none.
    pub fn frame_after(&self, pts: i64) -> (query: Query<Option<i64>>)
        requires
            self.wf(),
        ensures
            self.answers_frame_after(pts, query),
    {
        if pts == i64::MAX {
            return Query::Known(None);
        }
        let next: i64 = pts + 1;
        let gap: i64 = gap_from(&self.frame_coverage, next);
        match self.frames.at_or_after(next) {
            Some(frame) => if frame < gap {
                Query::Known(Some(frame))
            } else {
                Query::Unread(max(gap, 0))
            },
            None => if gap == i64::MAX {
                Query::Known(None)
            } else {
                Query::Unread(max(gap, 0))
            },
        }
    }
}

impl KeyframeIndex {
    /// Every stream's tables are sorted, and the streams are in order.
    pub open spec fn wf(&self) -> bool {
        &&& in_stream_order(self.streams@)
        &&& forall|i: int| 0 <= i < self.streams@.len() ==> (#[trigger] self.streams@[i]).wf()
    }

    /// The index for a file's video streams: what was stored of a stream, if
    /// it was stored in this format, and otherwise nothing, to be filled as
    /// regions are read. Cover images are not indexed.
    pub fn open(tracks: &Vec<VideoTrack>, stored: Option<Stored>) -> (index: KeyframeIndex)
        requires
            forall|i: int, j: int|
                0 <= i < j < tracks@.len() ==> (#[trigger] tracks@[i]).index < (
                #[trigger] tracks@[j]).index,
            stored matches Some(stored) ==> {
                &&& forall|i: int| 0 <= i < stored.streams@.len() ==> (#[trigger] stored.streams@[i]).wf()
                &&& forall|i: int, j: int|
                    0 <= i < j < stored.streams@.len() ==> (#[trigger] stored.streams@[i]).stream
                        != (#[trigger] stored.streams@[j]).stream
            },
        ensures
            index.wf(),
            ({
                let kept = indexed_tracks(tracks@);
                &&& index.streams@.len() == kept.len()
                &&& forall|i: int|
                    0 <= i < kept.len() ==> {
                        let made = #[trigger] index.streams@[i];
                        &&& made.stream == kept[i].index
                        &&& match stored {
                            Some(stored) => if stored.version == FORMAT_VERSION && exists|j: int|
                                0 <= j < stored.streams@.len() && (#[trigger] stored.streams@[j]).stream == kept[i].index {
                                stored.streams@.contains(made)
                            } else {
                                untouched(&made, kept[i])
                            },
                            None => untouched(&made, kept[i]),
                        }
                    }
            }),
    {
        let mut restored: Vec<StreamIndex> = match stored {
            Some(stored) => if stored.version == FORMAT_VERSION {
                stored.streams
            } else {
                Vec::new()
            },
            None => Vec::new(),
        };
        let ghost usable = restored@;
        let mut streams: Vec<StreamIndex> = Vec::new();
        let mut i: usize = 0;
        assert(tracks@.take(0).len() == 0);
        while i < tracks.len()
            invariant
                i <= tracks.len(),
                forall|a: int, b: int|
                    0 <= a < b < tracks@.len() ==> (#[trigger] tracks@[a]).index < (
                    #[trigger] tracks@[b]).index,
                in_stream_order(streams@),
                forall|k: int| 0 <= k < streams@.len() ==> (#[trigger] streams@[k]).wf(),
                forall|k: int|
                    0 <= k < streams@.len() && i < tracks@.len() ==> (#[trigger] streams@[k]).stream
                        < tracks@[i as int].index,
                forall|k: int| 0 <= k < restored@.len() ==> (#[trigger] restored@[k]).wf(),
                forall|k: int| 0 <= k < restored@.len() ==> usable.contains(#[trigger] restored@[k]),
                // What has been taken out belongs to an earlier track.
                forall|j: int| 0 <= j < usable.len() && i < tracks@.len() && (
                    #[trigger] usable[j]).stream >= tracks@[i as int].index ==> restored@.contains(
                    usable[j],
                ),
                ({
                    let kept = indexed_tracks(tracks@.take(i as int));
                    &&& streams@.len() == kept.len()
                    &&& forall|k: int|
                        0 <= k < kept.len() ==> {
                            let made = #[trigger] streams@[k];
                            &&& made.stream == kept[k].index
                            &&& if exists|j: int|
                                0 <= j < usable.len() && (#[trigger] usable[j]).stream
                                    == kept[k].index {
                                usable.contains(made)
                            } else {
                                untouched(&made, kept[k])
                            }
                        }
                }),
            decreases tracks.len() - i,
        {
            let track: VideoTrack = tracks[i];
            assert(tracks@.take(i + 1).drop_last() =~= tracks@.take(i as int));
            assert(tracks@.take(i + 1).last() == track);
            if !track.is_attached_picture {
                let mut at: usize = 0;
                while at < restored.len() && restored[at].stream != track.index
                    invariant
                        at <= restored.len(),
                        forall|j: int|
                            0 <= j < at ==> (#[trigger] restored@[j]).stream != track.index,
                    decreases restored.len() - at,
                {
                    at = at + 1;
                }
                let ghost left = restored@;
                let made: StreamIndex = if at < restored.len() {
                    restored.remove(at)
                } else {
                    StreamIndex::new(track)
                };
                proof {
                    if at < left.len() {
                        assert(usable.contains(left[at as int]));
                        let j = choose|j: int| 0 <= j < usable.len() && usable[j] == left[at as int];
                        assert(usable[j].stream == track.index);
                    } else {
                        assert forall|j: int| 0 <= j < usable.len() implies (
                        #[trigger] usable[j]).stream != track.index by {
                            if usable[j].stream == track.index {
                                assert(left.contains(usable[j]));
                            }
                        }
                    }
                    assert forall|k: int| 0 <= k < restored@.len() implies usable.contains(
                        #[trigger] restored@[k],
                    ) && restored@[k].wf() by {
                        if at < left.len() && k >= at {
                            assert(restored@[k] == left[k + 1]);
                        } else {
                            assert(restored@[k] == left[k]);
                        }
                    }
                    assert forall|j: int| 0 <= j < usable.len() && i + 1 < tracks@.len() && (
                    #[trigger] usable[j]).stream >= tracks@[i + 1].index implies restored@.contains(
                        usable[j],
                    ) by {
                        assert(tracks@[i as int].index < tracks@[i + 1].index);
                        assert(left.contains(usable[j]));
                        let k = choose|k: int| 0 <= k < left.len() && left[k] == usable[j];
                        if at < left.len() {
                            assert(k != at);
                            if k < at {
                                assert(restored@[k] == usable[j]);
                            } else {
                                assert(restored@[k - 1] == usable[j]);
                            }
                        }
                    }
                }
                streams.push(made);
            } else {
                proof {
                    assert forall|j: int| 0 <= j < usable.len() && i + 1 < tracks@.len() && (
                    #[trigger] usable[j]).stream >= tracks@[i + 1].index implies restored@.contains(
                        usable[j],
                    ) by {
                        assert(tracks@[i as int].index < tracks@[i + 1].index);
                    }
                }
            }
            proof {
                if i + 1 < tracks@.len() {
                    assert(tracks@[i as int].index < tracks@[i + 1].index);
                }
            }
            i = i + 1;
        }
        assert(tracks@.take(i as int) =~= tracks@);
        KeyframeIndex { streams }
    }

    /// The video streams this index covers.
    pub fn streams(&self) -> (numbers: Vec<u32>)
        ensures
            numbers@ == Seq::new(self.streams@.len(), |i: int| self.streams@[i].stream),
    {
        let mut numbers: Vec<u32> = Vec::new();
        let mut i: usize = 0;
        while i < self.streams.len()
            invariant
                i <= self.streams.len(),
                numbers@ == Seq::new(i as nat, |i: int| self.streams@[i].stream),
            decreases self.streams.len() - i,
        {
            numbers.push(self.streams[i].stream);
            i = i + 1;
            assert(numbers@ =~= Seq::new(i as nat, |i: int| self.streams@[i].stream));
        }
        numbers
    }

    /// Where `stream` is in the list.
    pub fn locate(&self, stream: u32) -> (at: Result<usize, IndexError>)
        ensures
            match at {
                Ok(at) => at < self.streams.len() && self.streams@[at as int].stream == stream,
                Err(error) => error == IndexError::NoSuchStream(stream) && !numbered(self, stream),
            },
    {
        let mut i: usize = 0;
        while i < self.streams.len()
            invariant
                i <= self.streams.len(),
                forall|j: int| 0 <= j < i ==> (#[trigger] self.streams@[j]).stream != stream,
            decreases self.streams.len() - i,
        {
            if self.streams[i].stream == stream {
                return Ok(i);
            }
            i = i + 1;
        }
        Err(IndexError::NoSuchStream(stream))
    }

    /// Every keyframe indexed so far, in presentation order.
    pub fn keyframes(&self, stream: u32) -> (list: Result<Vec<Keyframe>, IndexError>)
        ensures
            match list {
                Ok(list) => exists|i: int|
                    0 <= i < self.streams@.len() && (#[trigger] self.streams@[i]).stream == stream
                        && list@ == Seq::new(
                        self.streams@[i].entries.entries@.len(),
                        |k: int| self.streams@[i].entries.entries@[k].keyframe,
                    ),
                Err(error) => error == IndexError::NoSuchStream(stream) && !numbered(self, stream),
            },
    {
        match self.locate(stream) {
            Ok(at) => {
                let list: Vec<Keyframe> = self.streams[at].entries.keyframes();
                assert(self.streams@[at as int].stream == stream);
                Ok(list)
            },
            Err(error) => Err(error),
        }
    }

    /// The stream's time base.
    pub fn time_base(&self, stream: u32) -> (base: Result<Rational, IndexError>)
        ensures
            match base {
                Ok(base) => exists|i: int|
                    0 <= i < self.streams@.len() && (#[trigger] self.streams@[i]).stream == stream
                        && base == self.streams@[i].time_base,
                Err(error) => error == IndexError::NoSuchStream(stream) && !numbered(self, stream),
            },
    {
        match self.locate(stream) {
            Ok(at) => {
                assert(self.streams@[at as int].stream == stream);
                Ok(self.streams[at].time_base)
            },
            Err(error) => Err(error),
        }
    }

    /// Whether every stream is indexed end to end.
    pub fn is_complete(&self) -> (yes: bool)
        requires
            self.wf(),
        ensures
            yes == (forall|i: int|
                0 <= i < self.streams@.len() ==> (#[trigger] self.streams@[i]).whole()),
    {
        let mut i: usize = 0;
        while i < self.streams.len()
            invariant
                i <= self.streams.len(),
                self.wf(),
                forall|j: int| 0 <= j < i ==> (#[trigger] self.streams@[j]).whole(),
            decreases self.streams.len() - i,
        {
            if !self.streams[i].complete() {
                return false;
            }
            i = i + 1;
        }
        true
    }
}

/// Reading packets never forgets: every frame and keyframe known before is
/// known after.
pub proof fn reading_only_adds(
    reading: Reading,
    packets: Seq<Packet>,
    pictures: Map<i64, PictureKind>,
)
    ensures
        reading.frames.subset_of(read_all(reading, packets, pictures).frames),
        reading.entries.dom().subset_of(read_all(reading, packets, pictures).entries.dom()),
    decreases packets.len(),
{
    if packets.len() > 0 {
        reading_only_adds(reading, packets.drop_last(), pictures);
    }
}

/// Every shown packet's timestamp is a frame after its region is read, and
/// every keyframe packet's a keyframe.
pub proof fn every_packet_is_indexed(
    reading: Reading,
    packets: Seq<Packet>,
    pictures: Map<i64, PictureKind>,
    i: int,
)
    requires
        0 <= i < packets.len(),
    ensures
        packets[i].pts is Some && !packets[i].discard ==> read_all(
            reading,
            packets,
            pictures,
        ).frames.contains(packets[i].pts->0),
        packets[i].key && key_tick(packets[i]) is Some ==> read_all(
            reading,
            packets,
            pictures,
        ).entries.contains_key(key_tick(packets[i])->0),
    decreases packets.len(),
{
    if i < packets.len() - 1 {
        every_packet_is_indexed(reading, packets.drop_last(), pictures, i);
        assert(packets.drop_last()[i] == packets[i]);
    }
}

/// Reading adds nothing that no packet holds: a frame known after was known
/// before or is a shown packet's timestamp, and a keyframe likewise.
pub proof fn nothing_is_inferred(
    reading: Reading,
    packets: Seq<Packet>,
    pictures: Map<i64, PictureKind>,
    tick: i64,
)
    ensures
        read_all(reading, packets, pictures).frames.contains(tick) ==> reading.frames.contains(tick)
            || exists|i: int|
            0 <= i < packets.len() && (#[trigger] packets[i]).pts == Some(tick)
                && !packets[i].discard,
        read_all(reading, packets, pictures).entries.contains_key(tick)
            ==> reading.entries.contains_key(tick) || exists|i: int|
            0 <= i < packets.len() && (#[trigger] packets[i]).key && key_tick(packets[i]) == Some(
                tick,
            ),
    decreases packets.len(),
{
    if packets.len() > 0 {
        let shorter = packets.drop_last();
        nothing_is_inferred(reading, shorter, pictures, tick);
        let n = packets.len() - 1;
        assert(packets[n] == packets.last());
        if exists|i: int|
            0 <= i < shorter.len() && (#[trigger] shorter[i]).pts == Some(tick)
                && !shorter[i].discard {
            let i = choose|i: int|
                0 <= i < shorter.len() && (#[trigger] shorter[i]).pts == Some(tick)
                    && !shorter[i].discard;
            assert(packets[i] == shorter[i]);
        }
        if exists|i: int|
            0 <= i < shorter.len() && (#[trigger] shorter[i]).key && key_tick(shorter[i]) == Some(
                tick,
            ) {
            let i = choose|i: int|
                0 <= i < shorter.len() && (#[trigger] shorter[i]).key && key_tick(shorter[i])
                    == Some(tick);
            assert(packets[i] == shorter[i]);
        }
    }
}

/// A region read from `from` covers `from`: with a limit past it the tick is
/// covered, and with a limit past it by more than the margin its frames are.
pub proof fn a_region_covers_what_was_asked(region: &Region, first_key: Option<i64>, from: i64)
    requires
        0 <= from < i64::MAX,
        region.margin >= 0,
        region.reached_end || from < region.limit - region.margin,
    ensures
        region_start(first_key, from) <= from < region_end(region.reached_end, region.limit as int),
        region_start(first_key, from) <= from < region_end(
            region.reached_end,
            region.limit - region.margin,
        ),
{
}

/// A keyframe whose picture closes its group is never classified as open, and
/// one without leading pictures is not either.
pub proof fn only_leading_pictures_open_a_group(entry: Entry)
    requires
        entry.closed_out || entry.observed_after >= LEADING_WINDOW,
    ensures
        settled(entry).keyframe.gop == GopKind::Open <==> entry.keyframe.has_leading_pictures && !(
        entry.keyframe.picture matches Some(kind) && kind.closing()),
{
}

} // verus!
