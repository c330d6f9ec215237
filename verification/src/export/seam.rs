//! Smart-cut: a cut between keyframes costs one small re-encoded window
//! instead of the whole clip.
//!
//! A clip is split at its keyframes. The whole groups of pictures inside it
//! are remuxed — copied packet for packet. The partial group at a cut that is
//! not on a keyframe is recoded. Parameter sets are sent in-band: the seam's
//! own before its first picture, and the source's again before the first
//! copied keyframe after it.
use crate::bytes::{big_endian, push_all, push_big};
use crate::capability::VideoCodec;
use crate::export::obu::{header_from, starts_with_sequence_header};
use crate::export::plan::{Cause, Segment};
use crate::export::sps::{
    annex_b, annex_b_units, contents, is_annex_b, lemma_low_five, lemma_low_six, pair, pair_at,
    starts_annex_b,
};
use vstd::prelude::*;
use vstd::slice::slice_subrange;

verus! {

/// One piece of a smart-cut clip, in source ticks.
#[derive(Debug, Clone, Copy, PartialEq, Eq, Structural)]
pub enum Piece {
    /// Encoded: the pictures shown in `from..to`.
    Recode { from: i64, to: i64 },
    /// Copied: from the keyframe at `from`, the pictures shown before `to`.
    /// `to` is a keyframe or the clip's end; where `leading` is set, the
    /// pictures shown just before `to` are decoded after it, and the recode
    /// that follows starts where they do.
    Remux { from: i64, to: i64, leading: bool },
}

impl Piece {
    /// Where the piece starts.
    pub open spec fn start(self) -> i64 {
        match self {
            Piece::Recode { from, .. } => from,
            Piece::Remux { from, .. } => from,
        }
    }

    /// Where the piece ends.
    pub open spec fn end(self) -> i64 {
        match self {
            Piece::Recode { to, .. } => to,
            Piece::Remux { to, .. } => to,
        }
    }
}

/// The clip starts on a place no copy may start on.
pub open spec fn cut_at_head(segment: &Segment) -> bool {
    exists|i: int|
        0 <= i < segment.causes@.len() && (#[trigger] segment.causes@[i]) is InPointNotKeyframe
}

/// The clip ends inside a group of pictures.
pub open spec fn cut_at_tail(segment: &Segment) -> bool {
    exists|i: int|
        0 <= i < segment.causes@.len() && (#[trigger] segment.causes@[i]) is OutPointNotKeyframe
}

/// The clip ends on an open group's keyframe.
pub open spec fn open_at_tail(segment: &Segment) -> bool {
    exists|i: int|
        0 <= i < segment.causes@.len() && (#[trigger] segment.causes@[i]) is OpenGopAtOutPoint
}

/// Where the copied part of a clip starts: behind the first window, where its
/// head is cut.
pub open spec fn copied_from(segment: &Segment, from: i64, to: i64) -> i64 {
    if cut_at_head(segment) {
        if segment.windows@.len() > 0 {
            segment.windows@[0].to
        } else {
            to
        }
    } else {
        from
    }
}

/// Where the copied part of a clip ends: before the last window, where its
/// tail is cut inside a group.
pub open spec fn copied_to(segment: &Segment, from: i64, to: i64) -> i64 {
    if cut_at_tail(segment) {
        if segment.windows@.len() > 0 {
            segment.windows@.last().from
        } else {
            from
        }
    } else {
        to
    }
}

/// The pieces of a smart-cut clip: its head recoded, its whole groups copied,
/// its tail recoded; all of it recoded where nothing is left to copy.
pub open spec fn pieces_of(segment: &Segment, from: i64, to: i64) -> Seq<Piece> {
    let (start, end) = (copied_from(segment, from, to), copied_to(segment, from, to));
    let tail = cut_at_tail(segment) || open_at_tail(segment);
    if start >= end || start >= to {
        seq![Piece::Recode { from, to }]
    } else {
        (if cut_at_head(segment) {
            seq![Piece::Recode { from, to: start }]
        } else {
            Seq::empty()
        }) + seq![Piece::Remux { from: start, to: end, leading: tail }] + (if tail {
            seq![Piece::Recode { from: end, to }]
        } else {
            Seq::empty()
        })
    }
}

/// The pieces of a smart-cut `segment` of `from..to` (its source ticks), from
/// the plan's causes and windows.
pub fn pieces(segment: &Segment, from: i64, to: i64) -> (list: Vec<Piece>)
    ensures
        list@ == pieces_of(segment, from, to),
{
    let mut head = false;
    let mut tail_mid_gop = false;
    let mut tail_open = false;
    let mut i: usize = 0;
    while i < segment.causes.len()
        invariant
            i <= segment.causes@.len(),
            head == exists|k: int|
                0 <= k < i && (#[trigger] segment.causes@[k]) is InPointNotKeyframe,
            tail_mid_gop == exists|k: int|
                0 <= k < i && (#[trigger] segment.causes@[k]) is OutPointNotKeyframe,
            tail_open == exists|k: int|
                0 <= k < i && (#[trigger] segment.causes@[k]) is OpenGopAtOutPoint,
        decreases segment.causes@.len() - i,
    {
        match &segment.causes[i] {
            Cause::InPointNotKeyframe { .. } => {
                head = true;
                assert(segment.causes@[i as int] is InPointNotKeyframe);
            },
            Cause::OutPointNotKeyframe { .. } => {
                tail_mid_gop = true;
                assert(segment.causes@[i as int] is OutPointNotKeyframe);
            },
            Cause::OpenGopAtOutPoint { .. } => {
                tail_open = true;
                assert(segment.causes@[i as int] is OpenGopAtOutPoint);
            },
            _ => {},
        }
        i += 1;
    }
    let count = segment.windows.len();
    let copy_from = if head {
        if count > 0 {
            segment.windows[0].to
        } else {
            to
        }
    } else {
        from
    };
    let copy_to = if tail_mid_gop {
        if count > 0 {
            segment.windows[count - 1].from
        } else {
            from
        }
    } else {
        to
    };
    let mut list: Vec<Piece> = Vec::new();
    if copy_from >= copy_to || copy_from >= to {
        list.push(Piece::Recode { from, to });
        proof {
            assert(list@ =~= pieces_of(segment, from, to));
        }
        return list;
    }
    if head {
        list.push(Piece::Recode { from, to: copy_from });
    }
    let tail = tail_mid_gop || tail_open;
    list.push(Piece::Remux { from: copy_from, to: copy_to, leading: tail });
    if tail {
        // Where the recode starts is known once the copy has read its end: the
        // copy's end stands for it until then.
        list.push(Piece::Recode { from: copy_to, to });
    }
    proof {
        assert(list@ =~= pieces_of(segment, from, to));
    }
    list
}

/// The pieces of a clip cover it, each from where the one before ends.
pub proof fn pieces_cover_the_clip(segment: &Segment, from: i64, to: i64)
    ensures
        pieces_of(segment, from, to).len() > 0,
        pieces_of(segment, from, to)[0].start() == from,
        pieces_of(segment, from, to).last().end() == to,
        forall|i: int|
            0 <= i < pieces_of(segment, from, to).len() - 1 ==> (#[trigger] pieces_of(
                segment,
                from,
                to,
            )[i]).end() == pieces_of(segment, from, to)[i + 1].start(),
{
}

/// How units are delimited in the output stream.
#[derive(Debug, Clone, Copy, PartialEq, Eq, Structural)]
pub enum Framing {
    /// Big-endian length prefixes of this many bytes (`avcC`, `hvcC`).
    Length(usize),
    /// Start codes.
    AnnexB,
}

/// What stands before a unit.
pub open spec fn lead_of(framing: Framing, unit: Seq<u8>) -> Seq<u8> {
    match framing {
        Framing::AnnexB => seq![0u8, 0, 0, 1],
        Framing::Length(size) => big_endian(unit.len() as int, size as nat),
    }
}

/// Units, framed.
pub open spec fn framed(framing: Framing, units: Seq<Seq<u8>>) -> Seq<u8>
    decreases units.len(),
{
    if units.len() == 0 {
        Seq::empty()
    } else {
        framed(framing, units.drop_last()) + lead_of(framing, units.last()) + units.last()
    }
}

/// Frame `units`.
fn frame_units(framing: Framing, units: &Vec<&[u8]>) -> (out: Vec<u8>)
    ensures
        out@ == framed(framing, contents(units@)),
{
    let ghost all = contents(units@);
    let mut out: Vec<u8> = Vec::new();
    let mut i: usize = 0;
    proof {
        assert(all.take(0) =~= Seq::empty());
    }
    while i < units.len()
        invariant
            i <= units@.len(),
            all == contents(units@),
            out@ == framed(framing, all.take(i as int)),
        decreases units@.len() - i,
    {
        let unit = units[i];
        match framing {
            Framing::AnnexB => {
                push_all(&mut out, &[0, 0, 0, 1]);
            },
            Framing::Length(size) => {
                push_big(&mut out, unit.len() as u64, size);
            },
        }
        push_all(&mut out, unit);
        proof {
            let more = all.take(i + 1);
            assert(more.drop_last() =~= all.take(i as int));
            assert(more.last() == unit@);
            assert(out@ =~= framed(framing, more));
        }
        i += 1;
    }
    proof {
        assert(all.take(i as int) =~= all);
    }
    out
}

/// A unit is a parameter set: an H.264 SPS or PPS, an HEVC VPS, SPS or PPS.
pub open spec fn is_set(codec: VideoCodec, unit: Seq<u8>) -> bool {
    unit.len() > 0 && match codec {
        VideoCodec::H264 => unit[0] % 32 == 7 || unit[0] % 32 == 8,
        VideoCodec::Hevc => 32 <= (unit[0] / 2) % 64 <= 34,
        _ => false,
    }
}

/// Whether a NAL unit is a VPS, SPS or PPS.
pub fn is_parameter_set(codec: VideoCodec, unit: &[u8]) -> (yes: bool)
    ensures
        yes == is_set(codec, unit@),
{
    if unit.len() == 0 {
        return false;
    }
    let first = unit[0];
    proof {
        lemma_low_five(first);
        lemma_low_six(first);
    }
    match codec {
        VideoCodec::H264 => first & 0x1F == 7 || first & 0x1F == 8,
        VideoCodec::Hevc => 32 <= (first >> 1) & 0x3F && (first >> 1) & 0x3F <= 34,
        VideoCodec::Vp9 | VideoCodec::Av1 => false,
    }
}

/// The parameter sets among units.
pub open spec fn sets_of(codec: VideoCodec, units: Seq<Seq<u8>>) -> Seq<Seq<u8>>
    decreases units.len(),
{
    if units.len() == 0 {
        Seq::empty()
    } else if is_set(codec, units.last()) {
        sets_of(codec, units.drop_last()).push(units.last())
    } else {
        sets_of(codec, units.drop_last())
    }
}

/// One unit of a record in front of others, where it is there in full.
pub open spec fn and_unit(present: bool, unit: Seq<u8>, rest: Seq<Seq<u8>>) -> Seq<Seq<u8>> {
    if present {
        seq![unit] + rest
    } else {
        rest
    }
}

/// The units of an `avcC` record from `at` on: `count` of the present array,
/// then `arrays` more arrays, the number of units of the first of two in five
/// bits.
pub open spec fn avcc_units(record: Seq<u8>, at: int, count: nat, arrays: nat) -> Seq<Seq<u8>>
    decreases arrays, count,
{
    if count > 0 {
        if at + 2 > record.len() {
            Seq::empty()
        } else {
            let end = at + 2 + pair_at(record, at);
            and_unit(
                end <= record.len(),
                record.subrange(at + 2, end),
                avcc_units(record, end, (count - 1) as nat, arrays),
            )
        }
    } else if arrays == 0 || at >= record.len() {
        Seq::empty()
    } else {
        avcc_units(
            record,
            at + 1,
            (if arrays == 2 {
                record[at] % 32
            } else {
                record[at]
            }) as nat,
            (arrays - 1) as nat,
        )
    }
}

/// The parameter sets of an `hvcC` record from `at` on: `count` units of the
/// present array, then `arrays` more arrays.
pub open spec fn hvcc_sets(record: Seq<u8>, at: int, count: nat, arrays: nat) -> Seq<Seq<u8>>
    decreases arrays, count,
{
    if count > 0 {
        if at + 2 > record.len() {
            Seq::empty()
        } else {
            let end = at + 2 + pair_at(record, at);
            and_unit(
                end <= record.len() && is_set(VideoCodec::Hevc, record.subrange(at + 2, end)),
                record.subrange(at + 2, end),
                hvcc_sets(record, end, (count - 1) as nat, arrays),
            )
        }
    } else if arrays == 0 || at + 3 > record.len() {
        Seq::empty()
    } else {
        hvcc_sets(record, at + 3, pair_at(record, at + 1) as nat, (arrays - 1) as nat)
    }
}

/// The parameter sets of a configuration, in order: of an Annex B one those
/// among its units, of a record those in its arrays; of AV1 its configuration
/// OBUs, behind the four bytes of an `av1C` header.
pub open spec fn configuration_sets(codec: VideoCodec, record: Seq<u8>) -> Seq<Seq<u8>> {
    if starts_annex_b(record) {
        sets_of(codec, annex_b(record))
    } else {
        match codec {
            VideoCodec::H264 => avcc_units(record, 5, 0, 2),
            VideoCodec::Hevc => if record.len() < 23 {
                Seq::empty()
            } else {
                hvcc_sets(record, 23, 0, record[22] as nat)
            },
            VideoCodec::Av1 => if record.len() > 0 && record[0] == 0x81 {
                if record.len() > 4 {
                    seq![record.skip(4)]
                } else {
                    Seq::empty()
                }
            } else if record.len() > 0 {
                seq![record]
            } else {
                Seq::empty()
            },
            VideoCodec::Vp9 => Seq::empty(),
        }
    }
}

/// Nothing stands behind the end of a record.
proof fn lemma_behind(record: Seq<u8>, at: int, count: nat, arrays: nat)
    requires
        at >= record.len(),
    ensures
        avcc_units(record, at, count, arrays) == Seq::<Seq<u8>>::empty(),
        hvcc_sets(record, at, count, arrays) == Seq::<Seq<u8>>::empty(),
{
}

/// Append a unit.
fn push_unit<'a>(units: &mut Vec<&'a [u8]>, unit: &'a [u8])
    ensures
        contents(final(units)@) == contents(old(units)@).push(unit@),
{
    let ghost before = units@;
    units.push(unit);
    proof {
        assert(contents(units@) =~= contents(before).push(unit@));
    }
}

/// The units of an `avcC` record.
fn avcc_list(record: &[u8]) -> (units: Vec<&[u8]>)
    ensures
        contents(units@) == avcc_units(record@, 5, 0, 2),
{
    let mut units: Vec<&[u8]> = Vec::new();
    let mut at: usize = 5;
    let mut count: usize = 0;
    let mut arrays: usize = 2;
    let ghost all = avcc_units(record@, 5, 0, 2);
    proof {
        assert(contents(units@) + all =~= all);
    }
    while count > 0 || arrays > 0
        invariant
            arrays <= 2,
            count <= 0xffff,
            all == avcc_units(record@, 5, 0, 2),
            all == contents(units@) + avcc_units(record@, at as int, count as nat, arrays as nat),
        decreases arrays, count,
    {
        if count > 0 {
            if at > record.len() || record.len() - at < 2 {
                proof {
                    assert(all =~= contents(units@));
                }
                return units;
            }
            let length = pair(record, at);
            if record.len() - at - 2 < length {
                proof {
                    lemma_behind(
                        record@,
                        at + 2 + length,
                        (count - 1) as nat,
                        arrays as nat,
                    );
                    assert(all =~= contents(units@));
                }
                return units;
            }
            let ghost held = contents(units@);
            let unit = slice_subrange(record, at + 2, at + 2 + length);
            push_unit(&mut units, unit);
            proof {
                let rest = avcc_units(
                    record@,
                    at + 2 + length,
                    (count - 1) as nat,
                    arrays as nat,
                );
                assert(held + (seq![unit@] + rest) =~= contents(units@) + rest);
            }
            at += 2 + length;
            count -= 1;
        } else {
            if at >= record.len() {
                proof {
                    assert(all =~= contents(units@));
                }
                return units;
            }
            proof {
                lemma_low_five(record@[at as int]);
            }
            count = if arrays == 2 {
                (record[at] & 0x1F) as usize
            } else {
                record[at] as usize
            };
            arrays -= 1;
            at += 1;
        }
    }
    proof {
        assert(all =~= contents(units@));
    }
    units
}

/// The parameter sets of an `hvcC` record.
fn hvcc_list(record: &[u8]) -> (units: Vec<&[u8]>)
    requires
        record@.len() >= 23,
    ensures
        contents(units@) == hvcc_sets(record@, 23, 0, record@[22] as nat),
{
    let mut units: Vec<&[u8]> = Vec::new();
    let mut at: usize = 23;
    let mut count: usize = 0;
    let mut arrays: u8 = record[22];
    let ghost all = hvcc_sets(record@, 23, 0, record@[22] as nat);
    proof {
        assert(contents(units@) + all =~= all);
    }
    while count > 0 || arrays > 0
        invariant
            at <= record@.len(),
            record@.len() >= 23,
            all == hvcc_sets(record@, 23, 0, record@[22] as nat),
            all == contents(units@) + hvcc_sets(record@, at as int, count as nat, arrays as nat),
        decreases arrays, count,
    {
        if count > 0 {
            if record.len() - at < 2 {
                proof {
                    assert(all =~= contents(units@));
                }
                return units;
            }
            let length = pair(record, at);
            if record.len() - at - 2 < length {
                proof {
                    lemma_behind(
                        record@,
                        at + 2 + length,
                        (count - 1) as nat,
                        arrays as nat,
                    );
                    assert(all =~= contents(units@));
                }
                return units;
            }
            let ghost held = contents(units@);
            let unit = slice_subrange(record, at + 2, at + 2 + length);
            if is_parameter_set(VideoCodec::Hevc, unit) {
                push_unit(&mut units, unit);
                proof {
                    let rest = hvcc_sets(
                        record@,
                        at + 2 + length,
                        (count - 1) as nat,
                        arrays as nat,
                    );
                    assert(held + (seq![unit@] + rest) =~= contents(units@) + rest);
                }
            }
            at += 2 + length;
            count -= 1;
        } else {
            if record.len() - at < 3 {
                proof {
                    assert(all =~= contents(units@));
                }
                return units;
            }
            count = pair(record, at + 1);
            arrays -= 1;
            at += 3;
        }
    }
    proof {
        assert(all =~= contents(units@));
    }
    units
}

/// The parameter sets among the units of an Annex B stream.
fn annex_b_sets(codec: VideoCodec, record: &[u8]) -> (sets: Vec<&[u8]>)
    ensures
        contents(sets@) == sets_of(codec, annex_b(record@)),
{
    let units = annex_b_units(record);
    let ghost all = contents(units@);
    let mut sets: Vec<&[u8]> = Vec::new();
    let mut i: usize = 0;
    proof {
        assert(all.take(0) =~= Seq::empty());
        assert(contents(sets@) =~= Seq::empty());
    }
    while i < units.len()
        invariant
            i <= units@.len(),
            all == contents(units@),
            contents(sets@) == sets_of(codec, all.take(i as int)),
        decreases units@.len() - i,
    {
        let unit = units[i];
        proof {
            let more = all.take(i + 1);
            assert(more.drop_last() =~= all.take(i as int));
            assert(more.last() == unit@);
        }
        if is_parameter_set(codec, unit) {
            push_unit(&mut sets, unit);
        }
        i += 1;
    }
    proof {
        assert(all.take(i as int) =~= all);
    }
    sets
}

/// The parameter-set NAL units of an `avcC`/`hvcC` record or an Annex B
/// configuration, in order.
pub fn parameter_units(codec: VideoCodec, record: &[u8]) -> (units: Vec<&[u8]>)
    ensures
        contents(units@) == configuration_sets(codec, record@),
{
    if is_annex_b(record) {
        return annex_b_sets(codec, record);
    }
    let mut units: Vec<&[u8]> = Vec::new();
    proof {
        assert(contents(units@) =~= Seq::empty());
    }
    match codec {
        VideoCodec::H264 => avcc_list(record),
        VideoCodec::Hevc => {
            if record.len() < 23 {
                return units;
            }
            hvcc_list(record)
        },
        VideoCodec::Av1 => {
            // av1C: four bytes of header, then the configuration OBUs.
            if record.len() > 0 && record[0] == 0x81 {
                if record.len() > 4 {
                    push_unit(&mut units, slice_subrange(record, 4, record.len()));
                    proof {
                        assert(record@.subrange(4, record@.len() as int) =~= record@.skip(4));
                        assert(contents(units@) =~= seq![record@.skip(4)]);
                    }
                }
            } else if record.len() > 0 {
                push_unit(&mut units, record);
                proof {
                    assert(contents(units@) =~= seq![record@]);
                }
            }
            units
        },
        VideoCodec::Vp9 => units,
    }
}

/// Units, one behind another.
pub open spec fn joined(units: Seq<Seq<u8>>) -> Seq<u8>
    decreases units.len(),
{
    if units.len() == 0 {
        Seq::empty()
    } else {
        joined(units.drop_last()) + units.last()
    }
}

/// The parameter sets of a configuration as the output carries them.
pub open spec fn sets_for(codec: VideoCodec, framing: Framing, record: Seq<u8>) -> Seq<u8> {
    let units = configuration_sets(codec, record);
    match codec {
        VideoCodec::H264 | VideoCodec::Hevc => framed(framing, units),
        VideoCodec::Av1 => joined(units),
        VideoCodec::Vp9 => Seq::empty(),
    }
}

/// Join `units`.
fn join(units: &Vec<&[u8]>) -> (out: Vec<u8>)
    ensures
        out@ == joined(contents(units@)),
{
    let ghost all = contents(units@);
    let mut out: Vec<u8> = Vec::new();
    let mut i: usize = 0;
    proof {
        assert(all.take(0) =~= Seq::empty());
    }
    while i < units.len()
        invariant
            i <= units@.len(),
            all == contents(units@),
            out@ == joined(all.take(i as int)),
        decreases units@.len() - i,
    {
        push_all(&mut out, units[i]);
        proof {
            let more = all.take(i + 1);
            assert(more.drop_last() =~= all.take(i as int));
            assert(more.last() == units@[i as int]@);
        }
        i += 1;
    }
    proof {
        assert(all.take(i as int) =~= all);
    }
    out
}

/// The parameter sets of a configuration as the output carries them.
fn sets(codec: VideoCodec, framing: Framing, record: &[u8]) -> (out: Vec<u8>)
    ensures
        out@ == sets_for(codec, framing, record@),
{
    let units = parameter_units(codec, record);
    match codec {
        VideoCodec::H264 | VideoCodec::Hevc => frame_units(framing, &units),
        VideoCodec::Av1 => join(&units),
        VideoCodec::Vp9 => {
            let out: Vec<u8> = Vec::new();
            proof {
                assert(out@ =~= Seq::empty());
            }
            out
        },
    }
}

/// How a configuration says that units are delimited: a record by the length
/// size it states, four bytes where it is cut off; anything else by start
/// codes.
pub open spec fn framing_of(codec: VideoCodec, record: Seq<u8>) -> Framing {
    if starts_annex_b(record) {
        Framing::AnnexB
    } else {
        match codec {
            VideoCodec::H264 => Framing::Length(length_size(record, 4)),
            VideoCodec::Hevc => Framing::Length(length_size(record, 21)),
            _ => Framing::AnnexB,
        }
    }
}

/// The length size that a record states at `at`, four where it ends before.
pub open spec fn length_size(record: Seq<u8>, at: int) -> usize {
    if at < record.len() {
        (record[at] % 4 + 1) as usize
    } else {
        4
    }
}

/// The low two bits of a byte.
pub proof fn lemma_low_two(b: u8)
    ensures
        b & 0x03 == b % 4,
{
    assert(b & 0x03 == b % 4) by (bit_vector);
}

/// The length size that a record states at `at`, four where it ends before.
fn length_size_at(record: &[u8], at: usize) -> (size: usize)
    ensures
        size == length_size(record@, at as int),
{
    if at < record.len() {
        proof {
            lemma_low_two(record@[at as int]);
        }
        (record[at] & 0x03) as usize + 1
    } else {
        4
    }
}

/// Puts a seam's packets and the copied packets around it into one stream a
/// decoder can follow across both joins.
#[derive(Debug, PartialEq, Eq)]
pub struct Stitch {
    pub codec: VideoCodec,
    pub framing: Framing,
    /// The source's parameter sets, framed for the output.
    pub source_sets: Vec<u8>,
    /// The seam's, framed for the output, until its first packet is written.
    pub seam_sets: Option<Vec<u8>>,
    /// The last packet written came from an encoder: the next copied keyframe
    /// must carry the source's parameter sets again.
    pub after_seam: bool,
    /// Whether any seam was written: the container must allow parameter sets
    /// in-band.
    pub in_band: bool,
}

/// A packet behind the parameter sets of a stream: an AV1 one that brings its
/// own sequence header, and a VP9 one, are left as they are.
pub open spec fn behind_sets(codec: VideoCodec, sets: Seq<u8>, data: Seq<u8>) -> Seq<u8> {
    match codec {
        VideoCodec::H264 | VideoCodec::Hevc => sets + data,
        VideoCodec::Av1 => if header_from(data, 0) {
            data
        } else {
            sets + data
        },
        VideoCodec::Vp9 => data,
    }
}

/// A seam's packet framed for the output, before any sets.
pub open spec fn reframed(codec: VideoCodec, framing: Framing, data: Seq<u8>) -> Seq<u8> {
    match codec {
        VideoCodec::H264 | VideoCodec::Hevc => if starts_annex_b(data) {
            framed(framing, annex_b(data))
        } else {
            data
        },
        _ => data,
    }
}

/// Bytes as they are, in a vector of their own.
fn owned(data: &[u8]) -> (out: Vec<u8>)
    ensures
        out@ == data@,
{
    let mut out: Vec<u8> = Vec::new();
    push_all(&mut out, data);
    proof {
        assert(out@ =~= data@);
    }
    out
}

impl Stitch {
    /// A stitch for a stream whose codec configuration is `extradata`.
    pub fn new(codec: VideoCodec, extradata: &[u8]) -> (stitch: Stitch)
        ensures
            stitch.codec == codec,
            stitch.framing == framing_of(codec, extradata@),
            stitch.source_sets@ == sets_for(codec, stitch.framing, extradata@),
            stitch.seam_sets is None,
            !stitch.after_seam,
            !stitch.in_band,
    {
        let framing = if is_annex_b(extradata) {
            Framing::AnnexB
        } else {
            match codec {
                VideoCodec::H264 => Framing::Length(length_size_at(extradata, 4)),
                VideoCodec::Hevc => Framing::Length(length_size_at(extradata, 21)),
                _ => Framing::AnnexB,
            }
        };
        Stitch {
            codec,
            framing,
            source_sets: sets(codec, framing, extradata),
            seam_sets: None,
            after_seam: false,
            in_band: false,
        }
    }

    /// A seam starts, made by an encoder whose configuration is `extradata`.
    pub fn begin_seam(&mut self, extradata: &[u8])
        ensures
            final(self).codec == old(self).codec,
            final(self).framing == old(self).framing,
            final(self).source_sets == old(self).source_sets,
            final(self).after_seam == old(self).after_seam,
            final(self).in_band,
            final(self).seam_sets is Some,
            final(self).seam_sets->0@ == sets_for(
                old(self).codec,
                old(self).framing,
                extradata@,
            ),
    {
        self.seam_sets = Some(sets(self.codec, self.framing, extradata));
        self.in_band = true;
    }

    /// A packet of the seam, framed for the output. The first carries the
    /// seam's parameter sets.
    pub fn seam(&mut self, data: &[u8]) -> (out: Vec<u8>)
        ensures
            final(self).codec == old(self).codec,
            final(self).framing == old(self).framing,
            final(self).source_sets == old(self).source_sets,
            final(self).in_band == old(self).in_band,
            final(self).seam_sets is None,
            final(self).after_seam,
            out@ == ({
                let body = reframed(old(self).codec, old(self).framing, data@);
                match old(self).seam_sets {
                    Some(sets) => behind_sets(old(self).codec, sets@, body),
                    None => body,
                }
            }),
    {
        self.after_seam = true;
        let (mut out, given): (Vec<u8>, bool) = match self.seam_sets.take() {
            Some(sets) => (sets, true),
            None => (Vec::new(), false),
        };
        let ghost before = out@;
        match self.codec {
            VideoCodec::H264 | VideoCodec::Hevc => {
                if is_annex_b(data) {
                    let units = annex_b_units(data);
                    let body = frame_units(self.framing, &units);
                    push_all(&mut out, &body);
                } else {
                    push_all(&mut out, data);
                }
                proof {
                    let body = reframed(old(self).codec, old(self).framing, data@);
                    assert(out@ =~= before + body);
                    if !given {
                        assert(out@ =~= body);
                    }
                }
                out
            },
            VideoCodec::Av1 => {
                if starts_with_sequence_header(data) {
                    owned(data)
                } else {
                    push_all(&mut out, data);
                    proof {
                        assert(out@ =~= before + data@);
                        if !given {
                            assert(out@ =~= data@);
                        }
                    }
                    out
                }
            },
            VideoCodec::Vp9 => owned(data),
        }
    }

    /// A copied packet. The first keyframe after a seam carries the source's
    /// parameter sets again; every other packet is untouched.
    pub fn copied(&mut self, data: Vec<u8>, key: bool) -> (out: Vec<u8>)
        ensures
            final(self).codec == old(self).codec,
            final(self).framing == old(self).framing,
            final(self).source_sets == old(self).source_sets,
            final(self).seam_sets == old(self).seam_sets,
            final(self).in_band == old(self).in_band,
            final(self).after_seam == (old(self).after_seam && !key),
            out@ == (if old(self).after_seam && key {
                behind_sets(old(self).codec, old(self).source_sets@, data@)
            } else {
                data@
            }),
    {
        if !(self.after_seam && key) {
            return data;
        }
        self.after_seam = false;
        let sets = match self.codec {
            VideoCodec::H264 | VideoCodec::Hevc => true,
            VideoCodec::Av1 => !starts_with_sequence_header(&data),
            VideoCodec::Vp9 => false,
        };
        if !sets {
            return data;
        }
        let mut out = owned(&self.source_sets);
        push_all(&mut out, &data);
        out
    }

    /// Whether any seam was written, so the container must allow parameter
    /// sets to change in-band.
    pub fn stitched(&self) -> (yes: bool)
        ensures
            yes == self.in_band,
    {
        self.in_band
    }
}

} // verus!
