//! Which of a producer's packets are its segment's.
use crate::capability::VideoCodec;
use crate::export::execute::place::{
    convert, converted, difference, minus, plus, range_error, sum, Place,
};
use crate::export::execute::{ErrorModel, ExportError};
use crate::export::nut::{Packet, PacketModel};
use crate::export::obu::{is_sized, units_at};
use crate::export::plan::Media;
use crate::export::seam::{behind_sets, framed, is_set, reframed, Stitch};
use crate::export::verify::{
    boundary_of, headers_sent_again_change_no_hash, sets_sent_again_change_no_hash, size_in,
    told_apart,
};
use crate::probe::Rational;
use crate::project::SourceId;
use crate::text::{decimal, push_decimal, push_signed, signed_decimal};
use vstd::prelude::*;

verus! {

/// A packet on its way to the muxer, already on the output timeline.
#[derive(Debug, PartialEq, Eq)]
pub struct Routed {
    pub pts: i64,
    pub key: bool,
    pub data: Vec<u8>,
}

/// What is done with a producer's packet.
#[derive(Debug, Clone, Copy, PartialEq, Eq, Structural)]
pub enum Take {
    /// Not the segment's: the next may be.
    Pass,
    /// The segment's.
    Send,
    /// Behind the segment's last: the keyframe there.
    Stop,
    /// The keyframe that the plan says is there is not.
    NoKeyframe,
}

/// A copy being read: from the keyframe at `from`, the pictures shown in
/// `from..to`, in the producer's own ticks.
#[derive(Debug, Clone, Copy, PartialEq, Eq, Structural)]
pub struct Copying {
    pub from: i64,
    pub to: i64,
    pub started: bool,
    /// The keyframe that the copy stopped on.
    pub stopped_at: Option<i64>,
}

impl Copying {
    /// What is done with the next packet.
    pub open spec fn take_of(self, pts: i64, key: bool) -> Take {
        if !self.started && !(key && pts == self.from) {
            if key && pts > self.from {
                Take::NoKeyframe
            } else {
                Take::Pass
            }
        } else if pts >= self.to {
            // A keyframe behind the out-point means everything before it has
            // been decoded.
            if key {
                Take::Stop
            } else {
                Take::Pass
            }
        } else if pts < self.from {
            // Leading pictures of an open group: shown before the cut.
            Take::Pass
        } else {
            Take::Send
        }
    }

    /// The copy behind the next packet.
    pub open spec fn after(self, pts: i64, key: bool) -> Copying {
        Copying {
            started: self.started || (key && pts == self.from),
            stopped_at: if self.take_of(pts, key) == Take::Stop {
                Some(pts)
            } else {
                self.stopped_at
            },
            ..self
        }
    }

    /// A copy that has read nothing. Sound starts wherever it is read.
    pub fn new(media: Media, from: i64, to: i64) -> (copying: Copying)
        ensures
            copying == (Copying { from, to, started: media == Media::Audio, stopped_at: None }),
    {
        Copying { from, to, started: media == Media::Audio, stopped_at: None }
    }

    /// Take the next packet.
    pub fn take(&mut self, pts: i64, key: bool) -> (take: Take)
        ensures
            take == old(self).take_of(pts, key),
            *final(self) == old(self).after(pts, key),
    {
        if !self.started {
            if key && pts == self.from {
                self.started = true;
            } else if key && pts > self.from {
                return Take::NoKeyframe;
            } else {
                return Take::Pass;
            }
        }
        if pts >= self.to {
            if key {
                self.stopped_at = Some(pts);
                return Take::Stop;
            }
            return Take::Pass;
        }
        if pts < self.from {
            return Take::Pass;
        }
        Take::Send
    }
}

/// The copy behind the first `count` packets.
pub open spec fn copied_up_to(copying: Copying, packets: Seq<(i64, bool)>, count: int) -> Copying
    decreases count,
{
    if count <= 0 {
        copying
    } else {
        copied_up_to(copying, packets, count - 1).after(
            packets[count - 1].0,
            packets[count - 1].1,
        )
    }
}

/// The `i`th packet is sent.
pub open spec fn is_sent(copying: Copying, packets: Seq<(i64, bool)>, i: int) -> bool {
    copied_up_to(copying, packets, i).take_of(packets[i].0, packets[i].1) == Take::Send
}

/// A copy that has started had to see its keyframe.
proof fn lemma_started(copying: Copying, packets: Seq<(i64, bool)>, count: int)
    requires
        !copying.started,
        0 <= count <= packets.len(),
    ensures
        copied_up_to(copying, packets, count).from == copying.from,
        copied_up_to(copying, packets, count).to == copying.to,
        copied_up_to(copying, packets, count).started ==> exists|k: int|
            0 <= k < count && #[trigger] packets[k] == (copying.from, true),
    decreases count,
{
    if count > 0 {
        lemma_started(copying, packets, count - 1);
        let before = copied_up_to(copying, packets, count - 1);
        let (pts, key) = packets[count - 1];
        if before.started {
            let k = choose|k: int|
                0 <= k < count - 1 && #[trigger] packets[k] == (copying.from, true);
            assert(packets[k] == (copying.from, true));
        } else if key && pts == before.from {
            assert(packets[count - 1] == (copying.from, true));
        }
    }
}

/// Whatever a producer writes, only pictures of the range are sent, and none
/// before its keyframe has been: the first that is sent is that keyframe's, or
/// comes behind it.
pub proof fn a_copy_starts_on_its_keyframe(copying: Copying, packets: Seq<(i64, bool)>, i: int)
    requires
        !copying.started,
        0 <= i < packets.len(),
        is_sent(copying, packets, i),
    ensures
        copying.from <= packets[i].0 < copying.to,
        exists|k: int| 0 <= k <= i && #[trigger] packets[k] == (copying.from, true),
{
    lemma_started(copying, packets, i);
    let before = copied_up_to(copying, packets, i);
    if before.started {
        let k = choose|k: int| 0 <= k < i && #[trigger] packets[k] == (copying.from, true);
        assert(packets[k] == (copying.from, true));
    } else {
        assert(packets[i] == (copying.from, true));
    }
}

/// A copy sends everything it is made for and nothing else: once it has
/// started, every packet shown in its range, keyframe or not. It ends only on a
/// keyframe shown at or behind its out-point, and it fails only where a
/// keyframe comes that should have been behind its own.
pub proof fn a_copy_is_complete(copying: Copying, packets: Seq<(i64, bool)>, i: int)
    requires
        0 <= i < packets.len(),
    ensures
        ({
            let (pts, key) = packets[i];
            let started = copying.started || exists|k: int|
                0 <= k <= i && #[trigger] packets[k] == (copying.from, true);
            let take = copied_up_to(copying, packets, i).take_of(pts, key);
            &&& take == Take::Send <==> started && copying.from <= pts < copying.to
            &&& take == Take::Stop <==> started && key && pts >= copying.to
            &&& take == Take::NoKeyframe <==> !started && key && pts > copying.from
        }),
{
    lemma_going(copying, packets, i);
    let before = copied_up_to(copying, packets, i);
    if packets[i] == (copying.from, true) {
        assert(packets[i] == (copying.from, true));
    }
    if exists|k: int| 0 <= k <= i && #[trigger] packets[k] == (copying.from, true) {
        let k = choose|k: int| 0 <= k <= i && #[trigger] packets[k] == (copying.from, true);
        if k < i {
            assert(before.started);
        }
    }
}

/// A copy has started once its keyframe has come, and stopped where the last
/// keyframe behind its range was.
proof fn lemma_going(copying: Copying, packets: Seq<(i64, bool)>, count: int)
    requires
        0 <= count <= packets.len(),
    ensures
        copied_up_to(copying, packets, count).from == copying.from,
        copied_up_to(copying, packets, count).to == copying.to,
        copied_up_to(copying, packets, count).started <==> (copying.started || exists|k: int|
            0 <= k < count && #[trigger] packets[k] == (copying.from, true)),
    decreases count,
{
    if count > 0 {
        lemma_going(copying, packets, count - 1);
        let before = copied_up_to(copying, packets, count - 1);
        let (pts, key) = packets[count - 1];
        if before.started && !copying.started {
            let k = choose|k: int|
                0 <= k < count - 1 && #[trigger] packets[k] == (copying.from, true);
            assert(packets[k] == (copying.from, true));
        }
        if key && pts == copying.from {
            assert(packets[count - 1] == (copying.from, true));
        }
        if exists|k: int| 0 <= k < count && #[trigger] packets[k] == (copying.from, true) {
            let k = choose|k: int| 0 <= k < count && #[trigger] packets[k] == (copying.from, true);
            if k < count - 1 {
                assert(packets[k] == (copying.from, true));
            }
        }
    }
}

/// A copy remembers where it stopped: on the keyframe that ended it.
pub proof fn a_copy_knows_where_it_stopped(copying: Copying, pts: i64, key: bool)
    ensures
        copying.after(pts, key).stopped_at == (if copying.started && key && pts >= copying.to
            || !copying.started && key && pts == copying.from && pts >= copying.to {
            Some(pts)
        } else {
            copying.stopped_at
        }),
        copying.after(pts, key).from == copying.from,
        copying.after(pts, key).to == copying.to,
{
}

/// What a copy sends goes out as it came: its mark as a key and, where no seam
/// came before it, its bytes; and the keyframe that ends a copy ends its run.
pub proof fn a_copied_packet_goes_out_as_it_is(
    run: CopyRun,
    packet: PacketModel,
    sets: Option<Seq<u8>>,
    codec: VideoCodec,
)
    ensures
        ({
            let started = run.copying.started || packet.key && packet.pts == run.copying.from;
            let inside = started && run.copying.from <= packet.pts < run.copying.to;
            let step = run.step_of(packet, sets, codec);
            &&& step matches Ok(StepModel::Send { pts, key, data }) ==> {
                &&& inside
                &&& key == packet.key
                &&& sets is None ==> data == packet.data
                &&& run.place.placed(packet.pts, run.place.nut_base) == Ok::<i64, i64>(pts)
            }
            &&& inside && run.place.placed(packet.pts, run.place.nut_base) is Ok ==> step is Ok
                && step->Ok_0 is Send
            &&& (step is Ok && step->Ok_0 is Stop) <==> (started && packet.key && packet.pts
                >= run.copying.to)
        }),
{
}

/// What is said of a source without the keyframe that the plan says is there.
pub open spec fn no_keyframe(source: SourceId, from: i64) -> ErrorModel {
    ErrorModel::Mismatch(
        "source "@ + decimal(source as nat) + " has no keyframe at "@ + signed_decimal(from as int),
    )
}

/// What is said of a source that ends before the segment starts.
pub open spec fn ended_before(source: SourceId, from: i64) -> ErrorModel {
    ErrorModel::Mismatch(
        "source "@ + decimal(source as nat) + " ended before "@ + signed_decimal(from as int),
    )
}

/// What is said of a source without the keyframe that the plan says is there.
fn keyframe_error(source: SourceId, from: i64) -> (error: ExportError)
    ensures
        error@ == no_keyframe(source, from),
{
    let mut text = "source ".to_owned();
    push_decimal(&mut text, source);
    text.append(" has no keyframe at ");
    push_signed(&mut text, from);
    ExportError::Mismatch(text)
}

/// What is said of a source that ends before the segment starts.
fn end_error(source: SourceId, from: i64) -> (error: ExportError)
    ensures
        error@ == ended_before(source, from),
{
    let mut text = "source ".to_owned();
    push_decimal(&mut text, source);
    text.append(" ended before ");
    push_signed(&mut text, from);
    ExportError::Mismatch(text)
}

/// What the caller does next.
#[derive(Debug, PartialEq, Eq)]
pub enum Step {
    /// Read the next packet.
    Next,
    /// Send the packet, and read the next.
    Send(Routed),
    /// Read no more packets of the segment.
    Stop,
}

/// What a [`Step`] says.
pub enum StepModel {
    Next,
    Send { pts: i64, key: bool, data: Seq<u8> },
    Stop,
}

impl View for Step {
    type V = StepModel;

    open spec fn view(&self) -> StepModel {
        match *self {
            Step::Next => StepModel::Next,
            Step::Send(packet) => StepModel::Send {
                pts: packet.pts,
                key: packet.key,
                data: packet.data@,
            },
            Step::Stop => StepModel::Stop,
        }
    }
}

/// A copied segment, or a copied piece of one, on its way to the output.
#[derive(Debug)]
pub struct CopyRun {
    pub place: Place,
    pub media: Media,
    /// The in-point, in source ticks, for what is said of it.
    pub from: i64,
    pub copying: Copying,
}

impl CopyRun {
    /// A copy of `from..to` (source ticks) of the segment at `place`.
    pub fn new(media: Media, place: Place, from: i64, to: i64) -> (run: Result<CopyRun, ExportError>)
        ensures
            match (place.written(from), place.written(to)) {
                (Ok(start), Ok(end)) => run matches Ok(run) && run.place == place && run.media
                    == media && run.from == from && run.copying == (Copying {
                    from: start,
                    to: end,
                    started: media == Media::Audio,
                    stopped_at: None,
                }),
                (Err(ticks), _) => run is Err && run->Err_0@
                    == crate::export::execute::place::out_of_range(ticks),
                (_, Err(ticks)) => run is Err && run->Err_0@
                    == crate::export::execute::place::out_of_range(ticks),
            },
    {
        let start = match place.nut(from) {
            Ok(ticks) => ticks,
            Err(ticks) => {
                return Err(range_error(ticks));
            },
        };
        let end = match place.nut(to) {
            Ok(ticks) => ticks,
            Err(ticks) => {
                return Err(range_error(ticks));
            },
        };
        Ok(CopyRun { place, media, from, copying: Copying::new(media, start, end) })
    }

    /// What a packet comes to: it is passed over, sent where it belongs,
    /// behind the source's parameter sets where a seam came before, or is the
    /// keyframe behind the range.
    pub open spec fn step_of(
        self,
        packet: PacketModel,
        sets: Option<Seq<u8>>,
        codec: VideoCodec,
    ) -> Result<StepModel, ErrorModel> {
        match self.copying.take_of(packet.pts, packet.key) {
            Take::Pass => Ok(StepModel::Next),
            Take::Stop => Ok(StepModel::Stop),
            Take::NoKeyframe => Err(no_keyframe(self.place.source, self.from)),
            Take::Send => match self.place.placed(packet.pts, self.place.nut_base) {
                Err(ticks) => Err(crate::export::execute::place::out_of_range(ticks)),
                Ok(pts) => Ok(
                    StepModel::Send {
                        pts,
                        key: packet.key,
                        data: match sets {
                            Some(sets) => behind_sets(codec, sets, packet.data),
                            None => packet.data,
                        },
                    },
                ),
            },
        }
    }

    /// The parameter sets a packet is sent behind: the source's, for the first
    /// picture that is copied as a keyframe after a seam.
    pub open spec fn sets_for(self, stitch: Option<&Stitch>, key: bool) -> Option<Seq<u8>> {
        match stitch {
            Some(stitch) => if self.media == Media::Video && stitch.after_seam && key {
                Some(stitch.source_sets@)
            } else {
                None
            },
            None => None,
        }
    }

    /// Take the next packet of a copy whose stream nothing is stitched into.
    pub fn take(&mut self, packet: Packet) -> (step: Result<Step, ExportError>)
        ensures
            final(self).place == old(self).place,
            final(self).media == old(self).media,
            final(self).from == old(self).from,
            final(self).copying == old(self).copying.after(packet.pts, packet.key),
            match old(self).step_of(packet@, None, VideoCodec::H264) {
                Ok(model) => step is Ok && step->Ok_0@ == model,
                Err(error) => step is Err && step->Err_0@ == error,
            },
    {
        match self.copying.take(packet.pts, packet.key) {
            Take::Pass => Ok(Step::Next),
            Take::Stop => Ok(Step::Stop),
            Take::NoKeyframe => Err(keyframe_error(self.place.source, self.from)),
            Take::Send => match self.place.output(packet.pts, self.place.nut_base) {
                Err(ticks) => Err(range_error(ticks)),
                Ok(pts) => Ok(Step::Send(Routed { pts, key: packet.key, data: packet.data })),
            },
        }
    }

    /// Take the next packet of a copy whose stream is stitched.
    pub fn take_stitched(&mut self, packet: Packet, stitch: &mut Stitch) -> (step: Result<
        Step,
        ExportError,
    >)
        ensures
            final(self).place == old(self).place,
            final(self).media == old(self).media,
            final(self).from == old(self).from,
            final(self).copying == old(self).copying.after(packet.pts, packet.key),
            match old(self).step_of(
                packet@,
                old(self).sets_for(Some(&*old(stitch)), packet.key),
                old(stitch).codec,
            ) {
                Ok(model) => step is Ok && step->Ok_0@ == model,
                Err(error) => step is Err && step->Err_0@ == error,
            },
            final(stitch).codec == old(stitch).codec,
            final(stitch).framing == old(stitch).framing,
            final(stitch).source_sets == old(stitch).source_sets,
            final(stitch).seam_sets == old(stitch).seam_sets,
            final(stitch).in_band == old(stitch).in_band,
            final(stitch).after_seam == (old(stitch).after_seam && !(step matches Ok(Step::Send(_))
                && old(self).media == Media::Video && packet.key)),
    {
        match self.copying.take(packet.pts, packet.key) {
            Take::Pass => Ok(Step::Next),
            Take::Stop => Ok(Step::Stop),
            Take::NoKeyframe => Err(keyframe_error(self.place.source, self.from)),
            Take::Send => match self.place.output(packet.pts, self.place.nut_base) {
                Err(ticks) => Err(range_error(ticks)),
                Ok(pts) => {
                    let key = packet.key;
                    let data = if self.media == Media::Video {
                        stitch.copied(packet.data, key)
                    } else {
                        packet.data
                    };
                    Ok(Step::Send(Routed { pts, key, data }))
                },
            },
        }
    }

    /// The copy ends, its producer having nothing more: an error where it
    /// never started.
    pub fn finish(&self) -> (result: Result<Option<i64>, ExportError>)
        ensures
            if self.copying.started {
                result == Ok::<Option<i64>, ExportError>(self.copying.stopped_at)
            } else {
                result is Err && result->Err_0@ == ended_before(self.place.source, self.from)
            },
    {
        if !self.copying.started {
            return Err(end_error(self.place.source, self.from));
        }
        Ok(self.copying.stopped_at)
    }
}

/// The leading pictures of the keyframe a copy stopped on, being read: where
/// the first of them is shown.
#[derive(Debug, Clone, Copy, PartialEq, Eq, Structural)]
pub struct Leading {
    pub keyframe: i64,
    pub first: Option<i64>,
}

impl Leading {
    /// The leading pictures of the keyframe at `keyframe`, none read yet.
    pub fn new(keyframe: i64) -> (leading: Leading)
        ensures
            leading == (Leading { keyframe, first: None }),
    {
        Leading { keyframe, first: None }
    }

    /// What is known once a packet is read that is shown before the keyframe.
    pub open spec fn with(self, pts: i64) -> Leading {
        Leading {
            first: Some(
                match self.first {
                    Some(first) => if first < pts {
                        first
                    } else {
                        pts
                    },
                    None => pts,
                },
            ),
            ..self
        }
    }

    /// Take the next packet; whether there may be more.
    pub fn take(&mut self, pts: i64) -> (more: bool)
        ensures
            more == (pts < old(self).keyframe),
            *final(self) == (if more {
                old(self).with(pts)
            } else {
                *old(self)
            }),
    {
        if pts >= self.keyframe {
            return false;
        }
        self.first =
        Some(
            match self.first {
                Some(first) => {
                    if first < pts {
                        first
                    } else {
                        pts
                    }
                },
                None => pts,
            },
        );
        true
    }

    /// Where the first leading picture is shown, in source ticks.
    pub fn in_source(&self, place: &Place) -> (result: Result<Option<i64>, ExportError>)
        ensures
            match self.first {
                None => result == Ok::<Option<i64>, ExportError>(None),
                Some(pts) => match place.read(pts) {
                    Ok(ticks) => result == Ok::<Option<i64>, ExportError>(Some(ticks)),
                    Err(ticks) => result is Err && result->Err_0@
                        == crate::export::execute::place::out_of_range(ticks),
                },
            },
    {
        match self.first {
            None => Ok(None),
            Some(pts) => match place.source_ticks(pts) {
                Ok(ticks) => Ok(Some(ticks)),
                Err(ticks) => Err(range_error(ticks)),
            },
        }
    }
}

/// Where a recoded piece starts that a copy went before: where the first of
/// its leading pictures is shown, if that is earlier.
pub fn recode_from(from: i64, leading: Option<i64>) -> (start: i64)
    ensures
        start == (match leading {
            Some(first) => if first < from {
                first
            } else {
                from
            },
            None => from,
        }),
{
    match leading {
        Some(first) => {
            if first < from {
                first
            } else {
                from
            }
        },
        None => from,
    }
}

/// A recoded piece, or a rendered segment, on its way to the output: the
/// pictures shown in `low..high` of the encoder's ticks.
#[derive(Debug, Clone, Copy, PartialEq, Eq, Structural)]
pub struct SeamRun {
    pub place: Place,
    pub low: i64,
    pub high: i64,
    pub sent: u64,
}

impl SeamRun {
    /// A seam of `from..to` (source ticks), made by an encoder that writes in
    /// `base`.
    pub fn new(place: &Place, base: Rational, from: i64, to: i64) -> (run: Result<
        SeamRun,
        ExportError,
    >)
        ensures
            ({
                let seam = Place { nut_base: base, ..*place };
                match (seam.written(from), seam.written(to)) {
                    (Ok(low), Ok(high)) => run == Ok::<SeamRun, ExportError>(
                        SeamRun { place: seam, low, high, sent: 0 },
                    ),
                    (Err(ticks), _) => run is Err && run->Err_0@
                        == crate::export::execute::place::out_of_range(ticks),
                    (_, Err(ticks)) => run is Err && run->Err_0@
                        == crate::export::execute::place::out_of_range(ticks),
                }
            }),
    {
        let seam = place.seam(base);
        let low = match seam.nut(from) {
            Ok(ticks) => ticks,
            Err(ticks) => {
                return Err(range_error(ticks));
            },
        };
        let high = match seam.nut(to) {
            Ok(ticks) => ticks,
            Err(ticks) => {
                return Err(range_error(ticks));
            },
        };
        Ok(SeamRun { place: seam, low, high, sent: 0 })
    }

    /// Where a packet of the seam goes: nowhere, unless it is shown within the
    /// seam.
    pub open spec fn goes_to(self, pts: i64) -> Result<Option<i64>, i64> {
        if self.low <= pts < self.high {
            match self.place.placed(pts, self.place.nut_base) {
                Ok(there) => Ok(Some(there)),
                Err(ticks) => Err(ticks),
            }
        } else {
            Ok(None)
        }
    }

    /// Take the next packet of the seam, framed for the output; the first that
    /// is sent carries the seam's parameter sets.
    pub fn take(&mut self, packet: Packet, stitch: &mut Stitch) -> (step: Result<Step, ExportError>)
        requires
            old(self).sent < u64::MAX,
        ensures
            final(self).place == old(self).place,
            final(self).low == old(self).low,
            final(self).high == old(self).high,
            final(self).sent == old(self).sent + (if step matches Ok(Step::Send(_)) {
                1int
            } else {
                0
            }),
            match old(self).goes_to(packet.pts) {
                Err(ticks) => step is Err && step->Err_0@
                    == crate::export::execute::place::out_of_range(ticks) && *final(stitch) == *old(
                    stitch,
                ),
                Ok(None) => step is Ok && step->Ok_0@ == StepModel::Next && *final(stitch) == *old(
                    stitch,
                ),
                Ok(Some(there)) => {
                    let body = reframed(old(stitch).codec, old(stitch).framing, packet.data@);
                    &&& step is Ok
                    &&& step->Ok_0@ == StepModel::Send {
                        pts: there,
                        key: packet.key,
                        data: match old(stitch).seam_sets {
                            Some(sets) => behind_sets(old(stitch).codec, sets@, body),
                            None => body,
                        },
                    }
                    &&& final(stitch).after_seam
                    &&& final(stitch).seam_sets is None
                    &&& final(stitch).source_sets == old(stitch).source_sets
                    &&& final(stitch).codec == old(stitch).codec
                    &&& final(stitch).framing == old(stitch).framing
                    &&& final(stitch).in_band == old(stitch).in_band
                },
            },
    {
        if packet.pts < self.low || packet.pts >= self.high {
            return Ok(Step::Next);
        }
        match self.place.output(packet.pts, self.place.nut_base) {
            Err(ticks) => Err(range_error(ticks)),
            Ok(pts) => {
                let data = stitch.seam(&packet.data);
                self.sent = self.sent + 1;
                Ok(Step::Send(Routed { pts, key: packet.key, data }))
            },
        }
    }

    /// Take the next packet of a seam in a stream of a codec that is not
    /// stitched: it goes out as it is.
    pub fn take_plain(&mut self, packet: Packet) -> (step: Result<Step, ExportError>)
        requires
            old(self).sent < u64::MAX,
        ensures
            final(self).place == old(self).place,
            final(self).low == old(self).low,
            final(self).high == old(self).high,
            final(self).sent == old(self).sent + (if step matches Ok(Step::Send(_)) {
                1int
            } else {
                0
            }),
            match old(self).goes_to(packet.pts) {
                Err(ticks) => step is Err && step->Err_0@
                    == crate::export::execute::place::out_of_range(ticks),
                Ok(None) => step is Ok && step->Ok_0@ == StepModel::Next,
                Ok(Some(there)) => step is Ok && step->Ok_0@ == (StepModel::Send {
                    pts: there,
                    key: packet.key,
                    data: packet.data@,
                }),
            },
    {
        if packet.pts < self.low || packet.pts >= self.high {
            return Ok(Step::Next);
        }
        match self.place.output(packet.pts, self.place.nut_base) {
            Err(ticks) => Err(range_error(ticks)),
            Ok(pts) => {
                self.sent = self.sent + 1;
                Ok(Step::Send(Routed { pts, key: packet.key, data: packet.data }))
            },
        }
    }

    /// The seam ends: an error where it made no picture of `from..to`.
    pub fn finish(&self, from: i64, to: i64) -> (result: Result<u64, ExportError>)
        ensures
            if self.sent > 0 {
                result == Ok::<u64, ExportError>(self.sent)
            } else {
                result is Err && result->Err_0@ == ErrorModel::Mismatch(
                    "the seam of source "@ + decimal(self.place.source as nat) + " from "@
                        + signed_decimal(from as int) + " to "@ + signed_decimal(to as int)
                        + " produced no pictures"@,
                )
            },
    {
        if self.sent > 0 {
            return Ok(self.sent);
        }
        let mut text = "the seam of source ".to_owned();
        push_decimal(&mut text, self.place.source);
        text.append(" from ");
        push_signed(&mut text, from);
        text.append(" to ");
        push_signed(&mut text, to);
        text.append(" produced no pictures");
        Err(ExportError::Mismatch(text))
    }
}

/// An encoded segment of sound on its way to the output: behind the priming,
/// its own samples.
#[derive(Debug, Clone, Copy, PartialEq, Eq, Structural)]
pub struct SoundRun {
    /// In the encoder's ticks.
    pub first: i64,
    pub length: i64,
    pub nut_base: Rational,
    /// In the output's ticks.
    pub start: i64,
    pub out_base: Rational,
}

impl SoundRun {
    /// The samples of a segment that starts at `start` of `sequence`:
    /// `samples` behind `offset` and `preroll`, at `rate` a second.
    #[allow(clippy::too_many_arguments)]
    pub fn new(
        rate: u32,
        offset: i64,
        preroll: i64,
        samples: i64,
        nut_base: Rational,
        start: i64,
        sequence: Rational,
        out_base: Rational,
    ) -> (run: Result<SoundRun, ExportError>)
        ensures
            ({
                let sample = Rational { num: 1, den: rate as i64 };
                let behind = match plus(offset, preroll) {
                    Ok(both) => converted(both, sample, nut_base),
                    Err(ticks) => Err(ticks),
                };
                match (
                    behind,
                    converted(samples, sample, nut_base),
                    converted(start, sequence, out_base),
                ) {
                    (Ok(first), Ok(length), Ok(start)) => run == Ok::<SoundRun, ExportError>(
                        SoundRun { first, length, nut_base, start, out_base },
                    ),
                    (Err(ticks), _, _) => run is Err && run->Err_0@
                        == crate::export::execute::place::out_of_range(ticks),
                    (_, Err(ticks), _) => run is Err && run->Err_0@
                        == crate::export::execute::place::out_of_range(ticks),
                    (_, _, Err(ticks)) => run is Err && run->Err_0@
                        == crate::export::execute::place::out_of_range(ticks),
                }
            }),
    {
        let sample = Rational { num: 1, den: rate as i64 };
        let behind = match sum(offset, preroll) {
            Ok(both) => convert(both, sample, nut_base),
            Err(ticks) => Err(ticks),
        };
        let first = match behind {
            Ok(ticks) => ticks,
            Err(ticks) => {
                return Err(range_error(ticks));
            },
        };
        let length = match convert(samples, sample, nut_base) {
            Ok(ticks) => ticks,
            Err(ticks) => {
                return Err(range_error(ticks));
            },
        };
        let start = match convert(start, sequence, out_base) {
            Ok(ticks) => ticks,
            Err(ticks) => {
                return Err(range_error(ticks));
            },
        };
        Ok(SoundRun { first, length, nut_base, start, out_base })
    }

    /// What a packet comes to: the priming before the segment's samples is
    /// passed over, and what comes behind them stops the segment.
    pub open spec fn step_of(self, packet: PacketModel) -> Result<StepModel, i64> {
        match minus(packet.pts, self.first) {
            Err(ticks) => Err(ticks),
            Ok(at) => if at < 0 {
                Ok(StepModel::Next)
            } else if at >= self.length {
                Ok(StepModel::Stop)
            } else {
                match converted(at, self.nut_base, self.out_base) {
                    Err(ticks) => Err(ticks),
                    Ok(there) => match plus(self.start, there) {
                        Err(ticks) => Err(ticks),
                        Ok(pts) => Ok(
                            StepModel::Send { pts, key: packet.key, data: packet.data },
                        ),
                    },
                }
            },
        }
    }

    /// Take the next packet.
    pub fn take(&self, packet: Packet) -> (step: Result<Step, ExportError>)
        ensures
            match self.step_of(packet@) {
                Ok(model) => step is Ok && step->Ok_0@ == model,
                Err(ticks) => step is Err && step->Err_0@
                    == crate::export::execute::place::out_of_range(ticks),
            },
    {
        let at = match difference(packet.pts, self.first) {
            Ok(at) => at,
            Err(ticks) => {
                return Err(range_error(ticks));
            },
        };
        if at < 0 {
            return Ok(Step::Next);
        }
        if at >= self.length {
            return Ok(Step::Stop);
        }
        let there = match convert(at, self.nut_base, self.out_base) {
            Ok(there) => there,
            Err(ticks) => {
                return Err(range_error(ticks));
            },
        };
        match sum(self.start, there) {
            Ok(pts) => Ok(Step::Send(Routed { pts, key: packet.key, data: packet.data })),
            Err(ticks) => Err(range_error(ticks)),
        }
    }
}

/// A rendered segment on its way to the output: every picture the renderer
/// makes, on the sequence's grid from the segment's start.
#[derive(Debug, Clone, Copy, PartialEq, Eq, Structural)]
pub struct RenderRun {
    /// What the encoder adds to every timestamp, in its own ticks.
    pub offset: i64,
    pub nut_base: Rational,
    /// In the output's ticks.
    pub start: i64,
    pub out_base: Rational,
    pub sent: u64,
}

impl RenderRun {
    /// The pictures of a segment that starts at `start` of `sequence`, made by
    /// an encoder that writes in `nut_base`, a fixed time late.
    pub fn new(nut_base: Rational, start: i64, sequence: Rational, out_base: Rational) -> (run:
        Result<RenderRun, ExportError>)
        ensures
            match (
                converted(
                    crate::export::execute::READER_OFFSET_SECONDS,
                    crate::export::execute::place::second(),
                    nut_base,
                ),
                converted(start, sequence, out_base),
            ) {
                (Ok(offset), Ok(start)) => run == Ok::<RenderRun, ExportError>(
                    RenderRun { offset, nut_base, start, out_base, sent: 0 },
                ),
                (Err(ticks), _) => run is Err && run->Err_0@
                    == crate::export::execute::place::out_of_range(ticks),
                (_, Err(ticks)) => run is Err && run->Err_0@
                    == crate::export::execute::place::out_of_range(ticks),
            },
    {
        let offset = match convert(
            crate::export::execute::READER_OFFSET_SECONDS,
            Rational { num: 1, den: 1 },
            nut_base,
        ) {
            Ok(ticks) => ticks,
            Err(ticks) => {
                return Err(range_error(ticks));
            },
        };
        let start = match convert(start, sequence, out_base) {
            Ok(ticks) => ticks,
            Err(ticks) => {
                return Err(range_error(ticks));
            },
        };
        Ok(RenderRun { offset, nut_base, start, out_base, sent: 0 })
    }

    /// Where a picture goes.
    pub open spec fn goes_to(self, pts: i64) -> Result<i64, i64> {
        match minus(pts, self.offset) {
            Err(ticks) => Err(ticks),
            Ok(at) => match converted(at, self.nut_base, self.out_base) {
                Err(ticks) => Err(ticks),
                Ok(there) => plus(self.start, there),
            },
        }
    }

    /// Where a picture goes.
    fn pts_of(&self, pts: i64) -> (there: Result<i64, ExportError>)
        ensures
            match self.goes_to(pts) {
                Ok(place) => there == Ok::<i64, ExportError>(place),
                Err(ticks) => there is Err && there->Err_0@
                    == crate::export::execute::place::out_of_range(ticks),
            },
    {
        let at = match difference(pts, self.offset) {
            Ok(at) => at,
            Err(ticks) => {
                return Err(range_error(ticks));
            },
        };
        let there = match convert(at, self.nut_base, self.out_base) {
            Ok(there) => there,
            Err(ticks) => {
                return Err(range_error(ticks));
            },
        };
        match sum(self.start, there) {
            Ok(place) => Ok(place),
            Err(ticks) => Err(range_error(ticks)),
        }
    }

    /// Take the next packet of a stream of a codec that is not stitched: it
    /// goes out as it is.
    pub fn take_plain(&mut self, packet: Packet) -> (routed: Result<Routed, ExportError>)
        requires
            old(self).sent < u64::MAX,
        ensures
            final(self).offset == old(self).offset,
            final(self).nut_base == old(self).nut_base,
            final(self).start == old(self).start,
            final(self).out_base == old(self).out_base,
            final(self).sent == old(self).sent + (if routed is Ok {
                1int
            } else {
                0
            }),
            match old(self).goes_to(packet.pts) {
                Err(ticks) => routed is Err && routed->Err_0@
                    == crate::export::execute::place::out_of_range(ticks),
                Ok(pts) => routed is Ok && routed->Ok_0 == (Routed {
                    pts,
                    key: packet.key,
                    data: packet.data,
                }),
            },
    {
        let pts = self.pts_of(packet.pts)?;
        self.sent = self.sent + 1;
        Ok(Routed { pts, key: packet.key, data: packet.data })
    }

    /// Take the next packet, framed for the output.
    pub fn take(&mut self, packet: Packet, stitch: &mut Stitch) -> (routed: Result<
        Routed,
        ExportError,
    >)
        requires
            old(self).sent < u64::MAX,
        ensures
            final(self).offset == old(self).offset,
            final(self).nut_base == old(self).nut_base,
            final(self).start == old(self).start,
            final(self).out_base == old(self).out_base,
            final(self).sent == old(self).sent + (if routed is Ok {
                1int
            } else {
                0
            }),
            match old(self).goes_to(packet.pts) {
                Err(ticks) => routed is Err && routed->Err_0@
                    == crate::export::execute::place::out_of_range(ticks) && *final(stitch) == *old(
                    stitch,
                ),
                Ok(pts) => {
                    let body = reframed(old(stitch).codec, old(stitch).framing, packet.data@);
                    &&& routed is Ok
                    &&& routed->Ok_0.pts == pts
                    &&& routed->Ok_0.key == packet.key
                    &&& routed->Ok_0.data@ == (match old(stitch).seam_sets {
                        Some(sets) => behind_sets(old(stitch).codec, sets@, body),
                        None => body,
                    })
                    &&& final(stitch).after_seam
                    &&& final(stitch).seam_sets is None
                    &&& final(stitch).source_sets == old(stitch).source_sets
                    &&& final(stitch).codec == old(stitch).codec
                    &&& final(stitch).framing == old(stitch).framing
                    &&& final(stitch).in_band == old(stitch).in_band
                },
            },
    {
        let pts = self.pts_of(packet.pts)?;
        let data = stitch.seam(&packet.data);
        self.sent = self.sent + 1;
        Ok(Routed { pts, key: packet.key, data })
    }

    /// The segment at `frame` ends: an error where it made no picture.
    pub fn finish(&self, frame: i64) -> (result: Result<u64, ExportError>)
        ensures
            if self.sent > 0 {
                result == Ok::<u64, ExportError>(self.sent)
            } else {
                result is Err && result->Err_0@ == ErrorModel::Mismatch(
                    "the re-encode at frame "@ + signed_decimal(frame as int)
                        + " produced no pictures"@,
                )
            },
    {
        if self.sent > 0 {
            return Ok(self.sent);
        }
        let mut text = "the re-encode at frame ".to_owned();
        push_signed(&mut text, frame);
        text.append(" produced no pictures");
        Err(ExportError::Mismatch(text))
    }
}

/// What is sent before a copied packet can be told from it: parameter sets of
/// the packet's own kind of stream, framed as it is, or whole AV1 headers.
pub open spec fn sets_apart(stitch: Stitch, sets: Seq<Seq<u8>>, data: Seq<u8>) -> bool {
    match stitch.codec {
        VideoCodec::H264 | VideoCodec::Hevc => {
            &&& stitch.source_sets@ == framed(stitch.framing, sets)
            &&& forall|i: int| 0 <= i < sets.len() ==> is_set(stitch.codec, #[trigger] sets[i])
            &&& told_apart(stitch.framing, sets, data)
        },
        VideoCodec::Av1 => {
            &&& units_at(stitch.source_sets@, 0) is Some
            &&& forall|i: int|
                0 <= i < units_at(stitch.source_sets@, 0)->0.len() ==> {
                    let unit = #[trigger] units_at(stitch.source_sets@, 0)->0[i];
                    (unit.kind == 1 || unit.kind == 2) && is_sized(unit.bytes[0])
                }
            &&& units_at(data, 0) is Some
        },
        VideoCodec::Vp9 => true,
    }
}

/// A copy is bit-identical: whatever is sent of a copied packet, after a seam
/// or not, is hashed as the source's packet is.
pub proof fn what_is_copied_keeps_its_hash(
    run: CopyRun,
    packet: PacketModel,
    stitch: Stitch,
    sets: Seq<Seq<u8>>,
)
    requires
        run.sets_for(Some(&stitch), packet.key) is Some ==> sets_apart(stitch, sets, packet.data),
    ensures
        run.step_of(packet, run.sets_for(Some(&stitch), packet.key), stitch.codec) matches Ok(
            StepModel::Send { data, .. },
        ) ==> boundary_of(Some(stitch.codec), size_in(stitch.framing), data) == boundary_of(
            Some(stitch.codec),
            size_in(stitch.framing),
            packet.data,
        ),
        run.step_of(packet, None, stitch.codec) matches Ok(StepModel::Send { data, .. }) ==> data
            == packet.data,
{
    if run.sets_for(Some(&stitch), packet.key) is Some {
        match stitch.codec {
            VideoCodec::H264 | VideoCodec::Hevc => {
                sets_sent_again_change_no_hash(stitch.codec, stitch.framing, sets, packet.data);
            },
            VideoCodec::Av1 => {
                headers_sent_again_change_no_hash(
                    size_in(stitch.framing),
                    stitch.source_sets@,
                    packet.data,
                );
            },
            VideoCodec::Vp9 => {},
        }
    }
}

} // verus!
