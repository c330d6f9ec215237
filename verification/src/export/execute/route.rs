//! What an output stream is, once its first packets are known.
use crate::capability::VideoCodec;
use crate::export::execute::{ErrorModel, ExportError};
use crate::export::nut::{tags, Header, StreamHeader, StreamModel, Tag};
use crate::export::plan::Media;
use crate::export::profile::{join_of, validate_join};
use crate::export::seam::{framing_of, sets_for, Stitch};
use crate::probe::Rational;
use crate::text::same_text;
use vstd::prelude::*;
use vstd::slice::slice_to_vec;

verus! {

/// The first `count` tags, those of one name left out.
pub open spec fn without(list: Seq<Tag>, name: Seq<char>, count: int) -> Seq<Tag>
    decreases count,
{
    if count <= 0 {
        Seq::empty()
    } else if list[count - 1].0 == name {
        without(list, name, count - 1)
    } else {
        without(list, name, count - 1).push(list[count - 1])
    }
}

/// Metadata without the tags called `name`.
pub fn without_tag(list: &Vec<(String, String)>, name: &str) -> (kept: Vec<(String, String)>)
    ensures
        tags(kept@) == without(tags(list@), name@, list@.len() as int),
{
    let ghost all = tags(list@);
    let mut kept: Vec<(String, String)> = Vec::new();
    let mut i: usize = 0;
    proof {
        assert(tags(kept@) =~= Seq::empty());
    }
    while i < list.len()
        invariant
            i <= list@.len(),
            all == tags(list@),
            tags(kept@) == without(all, name@, i as int),
        decreases list@.len() - i,
    {
        let ghost before = kept@;
        let tag = &list[i];
        assert(all[i as int] == (tag.0@, tag.1@));
        if !same_text(tag.0.as_str(), name) {
            kept.push((tag.0.clone(), tag.1.clone()));
            proof {
                assert(tags(kept@) =~= tags(before).push(all[i as int]));
            }
        }
        i += 1;
    }
    kept
}

/// What a stream says, with other metadata.
pub open spec fn with_tags(stream: StreamModel, metadata: Seq<Tag>) -> StreamModel {
    StreamModel { metadata, ..stream }
}

/// A stream's header once more, with other metadata.
fn copy_stream(stream: &StreamHeader, metadata: Vec<(String, String)>) -> (same: StreamHeader)
    ensures
        same@ == with_tags(stream@, tags(metadata@)),
{
    StreamHeader {
        class: stream.class,
        fourcc: slice_to_vec(&stream.fourcc),
        time_base: stream.time_base,
        msb_pts_shift: stream.msb_pts_shift,
        max_pts_distance: stream.max_pts_distance,
        decode_delay: stream.decode_delay,
        flags: stream.flags,
        extradata: slice_to_vec(&stream.extradata),
        video: stream.video,
        audio: stream.audio,
        metadata,
    }
}

/// What a route tells the muxer before its first packet: its stream, and the
/// file's metadata.
#[derive(Debug, PartialEq, Eq)]
pub struct Announcement {
    pub stream: StreamHeader,
    pub metadata: Vec<(String, String)>,
}

/// The file's metadata a producer carries, less what describes the pipe.
pub open spec fn file_tags(header: Header) -> Seq<Tag> {
    without(tags(header.metadata@), "encoder"@, header.metadata@.len() as int)
}

/// A copied stream as the output announces it. The source's nominal rate is
/// not the output's once speeds and joins retime it.
pub open spec fn copied_stream(stream: StreamModel) -> StreamModel {
    with_tags(stream, without(stream.metadata, "r_frame_rate"@, stream.metadata.len() as int))
}

/// One output stream as far as it is known: its time base, what stitches it
/// together, and the configuration its encoded stretches have to join.
#[derive(Debug, PartialEq, Eq)]
pub struct Output {
    pub time_base: Option<Rational>,
    pub stitch: Option<Stitch>,
    pub reference: Option<Vec<u8>>,
}

/// A stitch that has written nothing.
pub open spec fn fresh(stitch: Stitch, codec: VideoCodec, extradata: Seq<u8>) -> bool {
    &&& stitch.codec == codec
    &&& stitch.framing == framing_of(codec, extradata)
    &&& stitch.source_sets@ == sets_for(codec, stitch.framing, extradata)
    &&& stitch.seam_sets is None
    &&& !stitch.after_seam
    &&& !stitch.in_band
}

/// A stitch that starts a seam, and is otherwise as it was.
pub open spec fn seam_begun(before: Stitch, after: Stitch, extradata: Seq<u8>) -> bool {
    &&& after.codec == before.codec
    &&& after.framing == before.framing
    &&& after.source_sets == before.source_sets
    &&& after.after_seam == before.after_seam
    &&& after.in_band
    &&& after.seam_sets is Some
    &&& after.seam_sets->0@ == sets_for(before.codec, before.framing, extradata)
}

impl Output {
    /// A stream of which nothing is known.
    pub fn new() -> (output: Output)
        ensures
            output.time_base is None,
            output.stitch is None,
            output.reference is None,
    {
        Output { time_base: None, stitch: None, reference: None }
    }

    /// The stream takes the configuration of `stream`, whose codec is `codec`
    /// where it is one that pictures are encoded to.
    fn take_configuration(&mut self, stream: &StreamHeader, codec: Option<VideoCodec>)
        ensures
            final(self).time_base == old(self).time_base,
            final(self).reference is Some,
            final(self).reference->0@ == stream.extradata@,
            match codec {
                Some(codec) => final(self).stitch is Some && fresh(
                    final(self).stitch->0,
                    codec,
                    stream.extradata@,
                ),
                None => final(self).stitch is None,
            },
    {
        self.stitch =
        match codec {
            Some(codec) => Some(Stitch::new(codec, &stream.extradata)),
            None => None,
        };
        self.reference = Some(slice_to_vec(&stream.extradata));
    }

    /// The stream takes the base and the configuration of the stream a reader
    /// was opened for; what the muxer is told.
    pub fn adopt(&mut self, header: &Header, codec: Option<VideoCodec>) -> (result: Result<
        Announcement,
        ExportError,
    >)
        ensures
            if header.streams@.len() == 0 {
                result is Err && result->Err_0@ == ErrorModel::Mismatch("a reader wrote no stream"@)
                    && *final(self) == *old(self)
            } else {
                let stream = header.streams@[0];
                &&& result is Ok
                &&& result->Ok_0.stream@ == copied_stream(stream@)
                &&& tags(result->Ok_0.metadata@) == file_tags(*header)
                &&& final(self).time_base == Some(stream.time_base)
                &&& final(self).reference is Some
                &&& final(self).reference->0@ == stream.extradata@
                &&& match codec {
                    Some(codec) => final(self).stitch is Some && fresh(
                        final(self).stitch->0,
                        codec,
                        stream.extradata@,
                    ),
                    None => final(self).stitch is None,
                }
            },
    {
        if header.streams.len() == 0 {
            return Err(ExportError::Mismatch("a reader wrote no stream".to_owned()));
        }
        let stream = &header.streams[0];
        self.take_configuration(stream, codec);
        self.time_base = Some(stream.time_base);
        Ok(
            Announcement {
                stream: copy_stream(stream, without_tag(&stream.metadata, "r_frame_rate")),
                metadata: without_tag(&header.metadata, "encoder"),
            },
        )
    }

    /// A producer of copied pictures, or of sound, is opened. The first says
    /// what the stream is; the first of pictures gives their configuration.
    pub fn open(&mut self, header: &Header, media: Media, codec: Option<VideoCodec>) -> (result:
        Result<(Rational, Option<Announcement>), ExportError>)
        ensures
            if header.streams@.len() == 0 {
                result is Err && result->Err_0@ == ErrorModel::Mismatch(
                    "a producer wrote no stream"@,
                ) && *final(self) == *old(self)
            } else {
                let stream = header.streams@[0];
                &&& result is Ok
                &&& match old(self).time_base {
                    Some(base) => result->Ok_0.0 == base && result->Ok_0.1 is None,
                    None => result->Ok_0.0 == stream.time_base && result->Ok_0.1 is Some
                        && result->Ok_0.1->0.stream@ == copied_stream(stream@) && tags(
                        result->Ok_0.1->0.metadata@,
                    ) == file_tags(*header),
                }
                &&& final(self).time_base == Some(result->Ok_0.0)
                &&& if media == Media::Video && old(self).stitch is None {
                    &&& final(self).reference is Some
                    &&& final(self).reference->0@ == stream.extradata@
                    &&& match codec {
                        Some(codec) => final(self).stitch is Some && fresh(
                            final(self).stitch->0,
                            codec,
                            stream.extradata@,
                        ),
                        None => final(self).stitch is None,
                    }
                } else {
                    final(self).reference == old(self).reference && final(self).stitch == old(
                        self,
                    ).stitch
                }
            },
    {
        if header.streams.len() == 0 {
            return Err(ExportError::Mismatch("a producer wrote no stream".to_owned()));
        }
        let stream = &header.streams[0];
        let (base, announcement) = match self.time_base {
            Some(base) => (base, None),
            None => (
                stream.time_base,
                Some(
                    Announcement {
                        stream: copy_stream(stream, without_tag(&stream.metadata, "r_frame_rate")),
                        metadata: without_tag(&header.metadata, "encoder"),
                    },
                ),
            ),
        };
        self.time_base = Some(base);
        if media == Media::Video && self.stitch.is_none() {
            self.take_configuration(stream, codec);
        }
        Ok((base, announcement))
    }

    /// A renderer of a whole segment is opened. Where nothing of the stream is
    /// known yet, the output is the encoder's own; what it made has to join the
    /// stream's configuration before a packet of it is written.
    pub fn open_rendered(&mut self, header: &Header, codec: VideoCodec) -> (result: Result<
        (Rational, Option<Announcement>),
        ExportError,
    >)
        ensures
            if header.streams@.len() == 0 {
                result is Err && result->Err_0@ == ErrorModel::Mismatch(
                    "a renderer wrote no stream"@,
                ) && *final(self) == *old(self)
            } else {
                let stream = header.streams@[0];
                let known = old(self).time_base is Some;
                let reference = if known {
                    match old(self).reference {
                        Some(reference) => Some(reference@),
                        None => None,
                    }
                } else {
                    Some(stream.extradata@)
                };
                match reference {
                    Some(reference) if join_of(codec, reference, stream.extradata@) is Err => {
                        result is Err && result->Err_0@ == ErrorModel::Seam(
                            join_of(codec, reference, stream.extradata@)->Err_0,
                        )
                    },
                    _ => {
                        &&& result is Ok
                        &&& match old(self).time_base {
                            Some(base) => result->Ok_0.0 == base && result->Ok_0.1 is None,
                            None => result->Ok_0.0 == stream.time_base && result->Ok_0.1 is Some
                                && result->Ok_0.1->0.stream@ == with_tags(
                                stream@,
                                Seq::<Tag>::empty(),
                            ) && tags(result->Ok_0.1->0.metadata@) == file_tags(*header),
                        }
                        &&& final(self).time_base == Some(result->Ok_0.0)
                        &&& known ==> final(self).reference == old(self).reference
                        &&& !known ==> final(self).reference is Some
                            && final(self).reference->0@ == stream.extradata@
                        &&& if known {
                            match old(self).stitch {
                                Some(before) => final(self).stitch is Some && seam_begun(
                                    before,
                                    final(self).stitch->0,
                                    stream.extradata@,
                                ),
                                None => final(self).stitch is None,
                            }
                        } else {
                            &&& final(self).stitch is Some
                            &&& exists|before: Stitch|
                                #![auto]
                                fresh(before, codec, stream.extradata@) && seam_begun(
                                    before,
                                    final(self).stitch->0,
                                    stream.extradata@,
                                )
                        }
                    },
                }
            },
    {
        if header.streams.len() == 0 {
            return Err(ExportError::Mismatch("a renderer wrote no stream".to_owned()));
        }
        let stream = &header.streams[0];
        let (base, announcement) = match self.time_base {
            Some(base) => (base, None),
            None => {
                self.take_configuration(stream, Some(codec));
                let none: Vec<(String, String)> = Vec::new();
                proof {
                    assert(tags(none@) =~= Seq::empty());
                }
                (
                    stream.time_base,
                    Some(
                        Announcement {
                            stream: copy_stream(stream, none),
                            metadata: without_tag(&header.metadata, "encoder"),
                        },
                    ),
                )
            },
        };
        self.time_base = Some(base);
        if let Some(reference) = &self.reference {
            if let Err(mismatch) = validate_join(codec, reference, &stream.extradata) {
                return Err(ExportError::Seam(mismatch));
            }
        }
        let ghost joined = self.stitch;
        if let Some(stitch) = &mut self.stitch {
            stitch.begin_seam(&stream.extradata);
        }
        proof {
            if old(self).time_base is None {
                assert(fresh(joined->0, codec, stream.extradata@));
                assert(seam_begun(joined->0, self.stitch->0, stream.extradata@));
            }
        }
        Ok((base, announcement))
    }

    /// The encoder of a recoded piece is opened: what it made has to join the
    /// copied stream's configuration, `extradata`, before a packet of it is
    /// written. Its time base.
    pub fn open_seam(&mut self, header: &Header, codec: VideoCodec, extradata: &[u8]) -> (result:
        Result<Rational, ExportError>)
        ensures
            final(self).time_base == old(self).time_base,
            final(self).reference == old(self).reference,
            if header.streams@.len() == 0 {
                result is Err && result->Err_0@ == ErrorModel::Mismatch(
                    "a seam encoder wrote no stream"@,
                ) && final(self).stitch == old(self).stitch
            } else {
                let stream = header.streams@[0];
                match join_of(codec, extradata@, stream.extradata@) {
                    Err(mismatch) => result is Err && result->Err_0@ == ErrorModel::Seam(mismatch)
                        && final(self).stitch == old(self).stitch,
                    Ok(_) => {
                        &&& result == Ok::<Rational, ExportError>(stream.time_base)
                        &&& match old(self).stitch {
                            Some(before) => final(self).stitch is Some && seam_begun(
                                before,
                                final(self).stitch->0,
                                stream.extradata@,
                            ),
                            None => final(self).stitch is None,
                        }
                    },
                }
            },
    {
        if header.streams.len() == 0 {
            return Err(ExportError::Mismatch("a seam encoder wrote no stream".to_owned()));
        }
        let stream = &header.streams[0];
        if let Err(mismatch) = validate_join(codec, extradata, &stream.extradata) {
            return Err(ExportError::Seam(mismatch));
        }
        if let Some(stitch) = &mut self.stitch {
            stitch.begin_seam(&stream.extradata);
        }
        Ok(stream.time_base)
    }
}

} // verus!
