//! Stream headers, info packets, and everything before the first frame.
use super::cursor::{field_at, signed_field_at, take_at, text_at, Bytes};
use super::fault::{Fault, NutError};
use super::number::{checksum, crc, read_number, v_at};
use super::table::{index_of, main_header, main_of, Main, MainModel};
use super::{tags, Chapter, ChapterModel, Class, Header, HeaderModel, StreamHeader, StreamModel, Tag};
use super::{INFO_STARTCODE, MAIN_STARTCODE, MAX_HEADER, STREAM_STARTCODE, SYNCPOINT_STARTCODE};
use crate::bytes::{big_endian, big_value, push_big};
use crate::probe::Rational;
use crate::text::same_text;
use vstd::prelude::*;
use vstd::slice::{slice_subrange, slice_to_vec};

verus! {

/// The kind of stream a number stands for.
pub open spec fn class_of(n: u64) -> Result<Class, Fault> {
    if n == 0 {
        Ok(Class::Video)
    } else if n == 1 {
        Ok(Class::Audio)
    } else if n == 2 {
        Ok(Class::Subtitle)
    } else if n == 3 {
        Ok(Class::Data)
    } else {
        Err(Fault::StreamClass(n))
    }
}

/// The kind of stream a number stands for.
fn class(n: u64) -> (class: Result<Class, Fault>)
    ensures
        class == class_of(n),
{
    if n == 0 {
        Ok(Class::Video)
    } else if n == 1 {
        Ok(Class::Audio)
    } else if n == 2 {
        Ok(Class::Subtitle)
    } else if n == 3 {
        Ok(Class::Data)
    } else {
        Err(Fault::StreamClass(n))
    }
}

/// The `count` numbers at `at`, after those `before`.
pub open spec fn numbers_at(s: Seq<u8>, at: int, count: int, before: Seq<u64>) -> Result<
    Seq<u64>,
    Fault,
>
    decreases count,
{
    if count <= 0 {
        Ok(before)
    } else {
        match field_at(s, at) {
            Err(fault) => Err(fault),
            Ok((n, at)) => numbers_at(s, at, count - 1, before.push(n)),
        }
    }
}

/// Read three numbers.
fn three(bytes: &mut Bytes<'_>) -> (shape: Result<[u64; 3], Fault>)
    requires
        old(bytes).wf(),
    ensures
        match (shape, numbers_at(old(bytes).data@, old(bytes).at as int, 3, Seq::empty())) {
            (Ok(shape), Ok(there)) => shape@ == there,
            (Err(a), Err(b)) => a == b,
            _ => false,
        },
{
    proof {
        reveal_with_fuel(numbers_at, 4);
    }
    let a: u64 = bytes.v()?;
    let b: u64 = bytes.v()?;
    let c: u64 = bytes.v()?;
    let shape = [a, b, c];
    assert(shape@ =~= Seq::<u64>::empty().push(a).push(b).push(c));
    Ok(shape)
}

/// Read five numbers.
fn five(bytes: &mut Bytes<'_>) -> (shape: Result<[u64; 5], Fault>)
    requires
        old(bytes).wf(),
    ensures
        match (shape, numbers_at(old(bytes).data@, old(bytes).at as int, 5, Seq::empty())) {
            (Ok(shape), Ok(there)) => shape@ == there,
            (Err(a), Err(b)) => a == b,
            _ => false,
        },
{
    proof {
        reveal_with_fuel(numbers_at, 6);
    }
    let a: u64 = bytes.v()?;
    let b: u64 = bytes.v()?;
    let c: u64 = bytes.v()?;
    let d: u64 = bytes.v()?;
    let e: u64 = bytes.v()?;
    let shape = [a, b, c, d, e];
    assert(shape@ =~= Seq::<u64>::empty().push(a).push(b).push(c).push(d).push(e));
    Ok(shape)
}

/// The stream header `s` is, and the number of its stream.
#[verifier::opaque]
pub open spec fn stream_of(s: Seq<u8>, time_bases: Seq<Rational>) -> Result<
    (usize, StreamModel),
    Fault,
> {
    match field_at(s, 0) {
        Err(fault) => Err(fault),
        Ok((id, at)) => match field_at(s, at) {
            Err(fault) => Err(fault),
            Ok((n, at)) => match class_of(n) {
                Err(fault) => Err(fault),
                Ok(class) => match field_at(s, at) {
                    Err(fault) => Err(fault),
                    Ok((length, at)) => if length != 2 && length != 4 {
                        Err(Fault::CodecTag)
                    } else {
                        match take_at(s, at, length) {
                            Err(fault) => Err(fault),
                            Ok((fourcc, at)) => match timing_of(s, at, time_bases, class, fourcc) {
                                Err(fault) => Err(fault),
                                Ok(stream) => Ok((index_of(id), stream)),
                            },
                        }
                    },
                },
            },
        },
    }
}

/// A stream header from its time base on.
#[verifier::opaque]
pub open spec fn timing_of(
    s: Seq<u8>,
    at: int,
    time_bases: Seq<Rational>,
    class: Class,
    fourcc: Seq<u8>,
) -> Result<StreamModel, Fault> {
    match field_at(s, at) {
        Err(fault) => Err(fault),
        Ok((base, at)) => if base >= time_bases.len() {
            Err(Fault::NamesNoTimeBase)
        } else {
            match field_at(s, at) {
                Err(fault) => Err(fault),
                Ok((msb_pts_shift, at)) => if msb_pts_shift >= 16 {
                    Err(Fault::MsbShift)
                } else {
                    match field_at(s, at) {
                        Err(fault) => Err(fault),
                        Ok((max_pts_distance, at)) => match field_at(s, at) {
                            Err(fault) => Err(fault),
                            Ok((decode_delay, at)) => match field_at(s, at) {
                                Err(fault) => Err(fault),
                                Ok((flags, at)) => match config_of(s, at, class) {
                                    Err(fault) => Err(fault),
                                    Ok((extradata, shape)) => Ok(
                                        StreamModel {
                                            class,
                                            fourcc,
                                            time_base: time_bases[base as int],
                                            msb_pts_shift,
                                            max_pts_distance,
                                            decode_delay,
                                            flags,
                                            extradata,
                                            video: if class == Class::Video {
                                                Some(shape)
                                            } else {
                                                None
                                            },
                                            audio: if class == Class::Audio {
                                                Some(shape)
                                            } else {
                                                None
                                            },
                                            metadata: Seq::empty(),
                                        },
                                    ),
                                },
                            },
                        },
                    }
                },
            }
        },
    }
}

/// A stream header's codec configuration, and the numbers its kind of stream
/// has after it: five for pictures, three for sound.
#[verifier::opaque]
pub open spec fn config_of(s: Seq<u8>, at: int, class: Class) -> Result<
    (Seq<u8>, Seq<u64>),
    Fault,
> {
    match field_at(s, at) {
        Err(fault) => Err(fault),
        Ok((length, at)) => match take_at(s, at, length) {
            Err(fault) => Err(fault),
            Ok((extradata, at)) => match numbers_at(
                s,
                at,
                match class {
                    Class::Video => 5,
                    Class::Audio => 3,
                    _ => 0,
                },
                Seq::empty(),
            ) {
                Err(fault) => Err(fault),
                Ok(shape) => Ok((extradata, shape)),
            },
        },
    }
}

/// Read a stream header, and the number of its stream.
pub fn stream_header(body: &[u8], time_bases: &Vec<Rational>) -> (read: Result<
    (usize, StreamHeader),
    Fault,
>)
    ensures
        match (read, stream_of(body@, time_bases@)) {
            (Ok((id, stream)), Ok((there_id, there))) => id == there_id && stream@ == there
                && stream.msb_pts_shift < 16,
            (Err(a), Err(b)) => a == b,
            _ => false,
        },
{
    proof {
        reveal(stream_of);
        reveal(timing_of);
        reveal(config_of);
    }
    let mut bytes = Bytes::new(body);
    let n: u64 = bytes.v()?;
    let id: usize = if n > usize::MAX as u64 {
        usize::MAX
    } else {
        n as usize
    };
    let n: u64 = bytes.v()?;
    let class: Class = class(n)?;
    let length: u64 = bytes.v()?;
    if length != 2 && length != 4 {
        return Err(Fault::CodecTag);
    }
    let fourcc: Vec<u8> = slice_to_vec(bytes.take(length)?);
    let base: u64 = bytes.v()?;
    if base >= time_bases.len() as u64 {
        return Err(Fault::NamesNoTimeBase);
    }
    let time_base: Rational = time_bases[base as usize];
    let msb_pts_shift: u64 = bytes.v()?;
    if msb_pts_shift >= 16 {
        return Err(Fault::MsbShift);
    }
    let max_pts_distance: u64 = bytes.v()?;
    let decode_delay: u64 = bytes.v()?;
    let flags: u64 = bytes.v()?;
    let length: u64 = bytes.v()?;
    let extradata: Vec<u8> = slice_to_vec(bytes.take(length)?);
    let mut video: Option<[u64; 5]> = None;
    let mut audio: Option<[u64; 3]> = None;
    match class {
        Class::Video => {
            video = Some(five(&mut bytes)?);
        },
        Class::Audio => {
            audio = Some(three(&mut bytes)?);
        },
        Class::Subtitle | Class::Data => {},
    }
    let stream = StreamHeader {
        class,
        fourcc,
        time_base,
        msb_pts_shift,
        max_pts_distance,
        decode_delay,
        flags,
        extradata,
        video,
        audio,
        metadata: Vec::new(),
    };
    assert(tags(stream.metadata@) =~= Seq::<Tag>::empty());
    Ok((id, stream))
}

/// The `count` fields of an info packet at `at`, after those `before`: a name,
/// a type, and a value. Texts are kept; other types are read past.
pub open spec fn tags_at(s: Seq<u8>, at: int, count: int, before: Seq<Tag>) -> Result<
    Seq<Tag>,
    Fault,
>
    decreases count,
{
    if count <= 0 {
        Ok(before)
    } else {
        match text_at(s, at) {
            Err(fault) => Err(fault),
            Ok((name, at)) => match signed_field_at(s, at) {
                Err(fault) => Err(fault),
                Ok((kind, at)) => if kind == -1 {
                    match text_at(s, at) {
                        Err(fault) => Err(fault),
                        Ok((text, at)) => tags_at(s, at, count - 1, before.push((name, text))),
                    }
                } else if kind == -2 {
                    match text_at(s, at) {
                        Err(fault) => Err(fault),
                        Ok((written, at)) => match text_at(s, at) {
                            Err(fault) => Err(fault),
                            Ok((text, at)) => tags_at(
                                s,
                                at,
                                count - 1,
                                if written == "UTF-8"@ {
                                    before.push((name, text))
                                } else {
                                    before
                                },
                            ),
                        },
                    }
                } else if kind == -4 {
                    match field_at(s, at) {
                        Err(fault) => Err(fault),
                        Ok((_, at)) => tags_at(s, at, count - 1, before),
                    }
                } else if kind < -2 {
                    match signed_field_at(s, at) {
                        Err(fault) => Err(fault),
                        Ok((_, at)) => tags_at(s, at, count - 1, before),
                    }
                } else {
                    tags_at(s, at, count - 1, before)
                },
            },
        }
    }
}

/// Read `count` fields of an info packet.
fn read_tags(bytes: &mut Bytes<'_>, count: u64) -> (list: Result<Vec<(String, String)>, Fault>)
    requires
        old(bytes).wf(),
    ensures
        match (list, tags_at(old(bytes).data@, old(bytes).at as int, count as int, Seq::empty())) {
            (Ok(list), Ok(there)) => tags(list@) == there,
            (Err(a), Err(b)) => a == b,
            _ => false,
        },
{
    let mut list: Vec<(String, String)> = Vec::new();
    assert(tags(list@) =~= Seq::<Tag>::empty());
    let mut left: u64 = count;
    while left > 0
        invariant
            bytes.wf(),
            bytes.data == old(bytes).data,
            tags_at(old(bytes).data@, old(bytes).at as int, count as int, Seq::empty()) == tags_at(
                bytes.data@,
                bytes.at as int,
                left as int,
                tags(list@),
            ),
        decreases left,
    {
        let name: String = bytes.string()?;
        let kind: i64 = bytes.s()?;
        let ghost before = tags(list@);
        if kind == -1 {
            let text: String = bytes.string()?;
            let ghost tag = (name@, text@);
            list.push((name, text));
            assert(tags(list@) =~= before.push(tag));
        } else if kind == -2 {
            let written: String = bytes.string()?;
            let text: String = bytes.string()?;
            let ghost tag = (name@, text@);
            if same_text(written.as_str(), "UTF-8") {
                list.push((name, text));
                assert(tags(list@) =~= before.push(tag));
            }
        } else if kind == -4 {
            let _ = bytes.v()?;
        } else if kind < -2 {
            let _ = bytes.s()?;
        }
        left = left - 1;
    }
    Ok(list)
}

/// What an info packet holds.
pub struct InfoModel {
    pub stream_plus_one: u64,
    pub chapter: i64,
    pub start: u64,
    pub length: u64,
    pub metadata: Seq<Tag>,
}

/// The info packet `s` is. No more than 4096 of its fields are read.
#[verifier::opaque]
pub open spec fn info_of(s: Seq<u8>) -> Result<InfoModel, Fault> {
    match field_at(s, 0) {
        Err(fault) => Err(fault),
        Ok((stream_plus_one, at)) => match signed_field_at(s, at) {
            Err(fault) => Err(fault),
            Ok((chapter, at)) => match field_at(s, at) {
                Err(fault) => Err(fault),
                Ok((start, at)) => match field_at(s, at) {
                    Err(fault) => Err(fault),
                    Ok((length, at)) => match field_at(s, at) {
                        Err(fault) => Err(fault),
                        Ok((count, at)) => match tags_at(
                            s,
                            at,
                            if count < 4096 {
                                count as int
                            } else {
                                4096
                            },
                            Seq::empty(),
                        ) {
                            Err(fault) => Err(fault),
                            Ok(metadata) => Ok(
                                InfoModel { stream_plus_one, chapter, start, length, metadata },
                            ),
                        },
                    },
                },
            },
        },
    }
}

/// What has been read of the headers so far.
pub struct DraftModel {
    pub streams: Seq<Option<StreamModel>>,
    pub metadata: Seq<Tag>,
    pub chapters: Seq<ChapterModel>,
}

/// The headers with an info packet taken in: a stream's metadata where it names
/// a stream that has a header, a chapter where it has a chapter's number, and
/// otherwise the file's metadata.
pub open spec fn informed(draft: DraftModel, info: InfoModel, time_bases: Seq<Rational>) -> DraftModel {
    if info.stream_plus_one > 0 {
        let id = info.stream_plus_one - 1;
        if id < draft.streams.len() && draft.streams[id] is Some {
            let stream = draft.streams[id]->0;
            DraftModel {
                streams: draft.streams.update(
                    id,
                    Some(StreamModel { metadata: stream.metadata + info.metadata, ..stream }),
                ),
                ..draft
            }
        } else {
            draft
        }
    } else if info.chapter != 0 {
        let count = time_bases.len() as int;
        DraftModel {
            chapters: draft.chapters.push(
                ChapterModel {
                    time_base: time_bases[info.start as int % count],
                    start: (info.start as int / count) as u64,
                    length: info.length,
                    metadata: info.metadata,
                },
            ),
            ..draft
        }
    } else {
        DraftModel { metadata: draft.metadata + info.metadata, ..draft }
    }
}

/// What has been read of the headers so far.
#[derive(Debug)]
pub struct Draft {
    pub streams: Vec<Option<StreamHeader>>,
    pub metadata: Vec<(String, String)>,
    pub chapters: Vec<Chapter>,
}

/// What a stream slot holds.
pub open spec fn slot(stream: Option<StreamHeader>) -> Option<StreamModel> {
    match stream {
        Some(stream) => Some(stream@),
        None => None,
    }
}

impl View for Draft {
    type V = DraftModel;

    open spec fn view(&self) -> DraftModel {
        DraftModel {
            streams: Seq::new(self.streams@.len(), |i: int| slot(self.streams@[i])),
            metadata: tags(self.metadata@),
            chapters: Seq::new(self.chapters@.len(), |i: int| self.chapters@[i]@),
        }
    }
}

impl Draft {
    /// Every header read has a usable shift.
    pub open spec fn wf(&self) -> bool {
        forall|i: int|
            0 <= i < self.streams@.len() && (#[trigger] self.streams@[i]) is Some
                ==> self.streams@[i]->0.msb_pts_shift < 16
    }

    /// Take in an info packet.
    pub fn info(&mut self, body: &[u8], time_bases: &Vec<Rational>) -> (done: Result<(), Fault>)
        requires
            time_bases@.len() > 0,
            old(self).wf(),
        ensures
            final(self).wf(),
            final(self).streams@.len() == old(self).streams@.len(),
            match (done, info_of(body@)) {
                (Ok(_), Ok(info)) => final(self)@ == informed(old(self)@, info, time_bases@),
                (Err(a), Err(b)) => a == b,
                _ => false,
            },
    {
        proof {
            reveal(info_of);
        }
        let ghost before = self@;
        let mut bytes = Bytes::new(body);
        let stream_plus_one: u64 = bytes.v()?;
        let chapter: i64 = bytes.s()?;
        let start: u64 = bytes.v()?;
        let length: u64 = bytes.v()?;
        let count: u64 = bytes.v()?;
        let mut metadata: Vec<(String, String)> = read_tags(
            &mut bytes,
            if count < 4096 {
                count
            } else {
                4096
            },
        )?;
        let ghost read = tags(metadata@);
        let ghost info = InfoModel { stream_plus_one, chapter, start, length, metadata: read };
        assert(info_of(body@) == Ok::<InfoModel, Fault>(info));
        if stream_plus_one > 0 {
            let id: u64 = stream_plus_one - 1;
            if id < self.streams.len() as u64 {
                let at: usize = id as usize;
                let ghost streams = self.streams@;
                let mut taken: Option<StreamHeader> = self.streams.remove(at);
                assert(taken == streams[at as int]);
                let ghost was = taken;
                if let Some(stream) = &mut taken {
                    stream.metadata.append(&mut metadata);
                }
                self.streams.insert(at, taken);
                assert(self.streams@ =~= streams.update(at as int, taken));
                proof {
                    if was is Some {
                        assert(taken is Some);
                        assert(tags(taken->0.metadata@) =~= tags(was->0.metadata@) + read);
                        assert(slot(taken) == Some(
                            StreamModel { metadata: was->0@.metadata + read, ..was->0@ },
                        ));
                    }
                    assert(self@.streams =~= informed(before, info, time_bases@).streams);
                }
            }
        } else if chapter != 0 {
            let bases: u64 = time_bases.len() as u64;
            let time_base: Rational = time_bases[(start % bases) as usize];
            let ghost chapters = self.chapters@;
            self.chapters.push(Chapter { time_base, start: start / bases, length, metadata });
            assert(self@.chapters =~= informed(before, info, time_bases@).chapters);
        } else {
            let ghost kept = self.metadata@;
            self.metadata.append(&mut metadata);
            assert(tags(self.metadata@) =~= tags(kept) + read);
        }
        Ok(())
    }
}

/// The body of the packet whose startcode ends at `at`, and where the packet
/// ends: a length, a checksum of the head where that is long, the body and its
/// checksum.
#[verifier::opaque]
pub open spec fn body_at(s: Seq<u8>, at: int, startcode: u64) -> Result<(Seq<u8>, int), Fault> {
    match v_at(s, at, Fault::EndsInNumber) {
        Err(fault) => Err(fault),
        Ok((forward, next)) => if forward > 4096 && next + 4 > s.len() {
            Err(Fault::EndsInPacket)
        } else if forward > 4096 && checksum(
            0,
            big_endian(startcode as int, 8) + s.subrange(at, next + 4),
        ) != 0 {
            Err(Fault::HeaderChecksum)
        } else if forward < 4 {
            Err(Fault::ShorterThanChecksum)
        } else {
            let start = if forward > 4096 {
                next + 4
            } else {
                next
            };
            if forward > MAX_HEADER {
                Err(Fault::TooLarge(forward))
            } else if start + forward > s.len() {
                Err(Fault::EndsInPacket)
            } else if checksum(0, s.subrange(start, start + forward)) != 0 {
                Err(Fault::PacketChecksum)
            } else {
                Ok((s.subrange(start, start + forward - 4), start + forward))
            }
        },
    }
}

/// A packet ends after it began, within the bytes there are.
pub proof fn lemma_body_ends(s: Seq<u8>, at: int, startcode: u64)
    requires
        0 <= at,
    ensures
        body_at(s, at, startcode) matches Ok((_, next)) ==> at < next <= s.len(),
{
    reveal(body_at);
    super::number::lemma_number_ends(s, at, 0, 10, Fault::EndsInNumber);
}

/// The body of the packet whose startcode ends at `at`, and where the packet
/// ends.
pub fn packet_body<'a>(s: &'a [u8], at: usize, startcode: u64) -> (body: Result<
    (&'a [u8], usize),
    Fault,
>)
    requires
        at <= s.len(),
    ensures
        match (body, body_at(s@, at as int, startcode)) {
            (Ok((body, next)), Ok((there, end))) => body@ == there && next == end && at < next
                <= s.len(),
            (Err(a), Err(b)) => a == b,
            _ => false,
        },
{
    proof {
        reveal(body_at);
    }
    let (forward, next) = read_number(s, at, Fault::EndsInNumber)?;
    let mut start: usize = next;
    if forward > 4096 {
        if s.len() - next < 4 {
            return Err(Fault::EndsInPacket);
        }
        let mut prefix: Vec<u8> = Vec::new();
        push_big(&mut prefix, startcode, 8);
        crate::bytes::push_all(&mut prefix, slice_subrange(s, at, next + 4));
        assert(prefix@ =~= big_endian(startcode as int, 8) + s@.subrange(at as int, next + 4));
        if crc(0, &prefix) != 0 {
            return Err(Fault::HeaderChecksum);
        }
        start = next + 4;
    }
    if forward < 4 {
        return Err(Fault::ShorterThanChecksum);
    }
    if forward > MAX_HEADER {
        return Err(Fault::TooLarge(forward));
    }
    let length: usize = forward as usize;
    if length > s.len() - start {
        return Err(Fault::EndsInPacket);
    }
    let end: usize = start + length;
    if crc(0, slice_subrange(s, start, end)) != 0 {
        return Err(Fault::PacketChecksum);
    }
    Ok((slice_subrange(s, start, end - 4), end))
}

/// The eight bytes at `at`, as a startcode.
pub open spec fn startcode_at(s: Seq<u8>, at: int) -> int {
    big_value(s.subrange(at, at + 8))
}

/// The eight bytes at `at`, as a startcode.
pub fn startcode(s: &[u8], at: usize) -> (code: u64)
    requires
        at + 8 <= s.len(),
    ensures
        code == startcode_at(s@, at as int),
{
    let ghost part = s@.subrange(at as int, at + 8);
    let mut code: u64 = 0;
    let mut i: usize = 0;
    assert(part.take(0).len() == 0);
    while i < 8
        invariant
            i <= 8,
            at + 8 <= s.len(),
            part == s@.subrange(at as int, at + 8),
            code == big_value(part.take(i as int)),
            code < crate::bytes::pow256(i as nat),
        decreases 8 - i,
    {
        assert(part.take(i + 1).drop_last() =~= part.take(i as int));
        proof {
            reveal_with_fuel(crate::bytes::pow256, 9);
        }
        code = code * 256 + s[at + i] as u64;
        i = i + 1;
    }
    assert(part.take(8) =~= part);
    code
}

/// The headers from `at` on, to the first syncpoint.
pub open spec fn headers_at(
    s: Seq<u8>,
    at: int,
    draft: DraftModel,
    time_bases: Seq<Rational>,
) -> Result<(DraftModel, int), NutError>
    decreases s.len() - at,
    via headers_decrease
{
    if at < 0 || at >= s.len() {
        Err(NutError::NoHeaders)
    } else if at + 8 > s.len() {
        Err(NutError::Malformed(Fault::EndsInStartcode))
    } else {
        let code = startcode_at(s, at);
        if code == SYNCPOINT_STARTCODE {
            Ok((draft, at))
        } else {
            match body_at(s, at + 8, code as u64) {
                Err(fault) => Err(NutError::Malformed(fault)),
                Ok((body, next)) => match header_taken(draft, code as u64, body, time_bases) {
                    Err(fault) => Err(NutError::Malformed(fault)),
                    Ok(draft) => headers_at(s, next, draft, time_bases),
                },
            }
        }
    }
}

#[via_fn]
proof fn headers_decrease(s: Seq<u8>, at: int, draft: DraftModel, time_bases: Seq<Rational>) {
    if at >= 0 {
        lemma_body_ends(s, at + 8, startcode_at(s, at) as u64);
    }
}

/// The headers with one packet taken in: a stream's header, an info packet, or
/// anything else, which is read past.
#[verifier::opaque]
pub open spec fn header_taken(
    draft: DraftModel,
    code: u64,
    body: Seq<u8>,
    time_bases: Seq<Rational>,
) -> Result<DraftModel, Fault> {
    if code == STREAM_STARTCODE {
        match stream_of(body, time_bases) {
            Err(fault) => Err(fault),
            Ok((id, stream)) => if id < draft.streams.len() {
                Ok(DraftModel { streams: draft.streams.update(id as int, Some(stream)), ..draft })
            } else {
                Err(Fault::StreamNotDeclared(id))
            },
        }
    } else if code == INFO_STARTCODE {
        match info_of(body) {
            Err(fault) => Err(fault),
            Ok(info) => Ok(informed(draft, info, time_bases)),
        }
    } else {
        Ok(draft)
    }
}

/// Where the main header's startcode first stands, or the length of `s`.
pub open spec fn main_at(s: Seq<u8>) -> int
    decreases s.len(),
{
    if s.len() < 8 {
        s.len() as int
    } else if startcode_at(s, 0) == MAIN_STARTCODE {
        0
    } else {
        1 + main_at(s.skip(1))
    }
}

/// The main header's startcode stands nowhere before `main_at`.
proof fn lemma_main_at_is(s: Seq<u8>, i: int)
    requires
        0 <= i <= s.len(),
        forall|j: int| 0 <= j < i && j + 8 <= s.len() ==> #[trigger] startcode_at(s, j) != MAIN_STARTCODE,
        i + 8 <= s.len() ==> startcode_at(s, i) == MAIN_STARTCODE,
        i + 8 > s.len() ==> i == s.len() || s.len() < 8,
    ensures
        i + 8 <= s.len() ==> main_at(s) == i,
        i + 8 > s.len() ==> main_at(s) == s.len(),
    decreases s.len(),
{
    if s.len() >= 8 && i > 0 {
        assert(startcode_at(s, 0) != MAIN_STARTCODE);
        let rest = s.skip(1);
        assert forall|j: int| 0 <= j < i - 1 && j + 8 <= rest.len() implies #[trigger] startcode_at(
            rest,
            j,
        ) != MAIN_STARTCODE by {
            assert(rest.subrange(j, j + 8) =~= s.subrange(j + 1, j + 9));
            assert(startcode_at(s, j + 1) != MAIN_STARTCODE);
        }
        if i + 8 <= s.len() {
            assert(rest.subrange(i - 1, i + 7) =~= s.subrange(i, i + 8));
        }
        lemma_main_at_is(rest, i - 1);
    }
}

/// Everything before the first frame, and what reading the frames needs.
pub struct OpenedModel {
    pub header: HeaderModel,
    pub main: MainModel,
    /// Where the first syncpoint stands.
    pub at: int,
}

/// The first stream that has no header.
pub open spec fn first_missing(streams: Seq<Option<StreamModel>>) -> int
    decreases streams.len(),
{
    if streams.len() == 0 || streams[0] is None {
        0
    } else {
        1 + first_missing(streams.skip(1))
    }
}

/// `first_missing` is where the headers there are end.
proof fn lemma_first_missing_is(streams: Seq<Option<StreamModel>>, i: int)
    requires
        0 <= i <= streams.len(),
        forall|j: int| 0 <= j < i ==> #[trigger] streams[j] is Some,
        i < streams.len() ==> streams[i] is None,
    ensures
        first_missing(streams) == i,
    decreases streams.len(),
{
    if i > 0 {
        assert(streams[0] is Some);
        let rest = streams.skip(1);
        assert forall|j: int| 0 <= j < i - 1 implies #[trigger] rest[j] is Some by {
            assert(streams[j + 1] is Some);
        }
        lemma_first_missing_is(rest, i - 1);
    }
}

/// What opening the stream `s` gives: the main header, every stream's header
/// and the info packets before the first syncpoint.
pub open spec fn opened(s: Seq<u8>) -> Result<OpenedModel, NutError> {
    let start = main_at(s);
    if start + 8 > s.len() {
        Err(NutError::NoHeaders)
    } else {
        match body_at(s, start + 8, MAIN_STARTCODE) {
            Err(fault) => Err(NutError::Malformed(fault)),
            Ok((body, next)) => match main_of(body) {
                Err(fault) => Err(NutError::Malformed(fault)),
                Ok(main) => match headers_at(
                    s,
                    next,
                    DraftModel {
                        streams: Seq::new(main.streams as nat, |i: int| None::<StreamModel>),
                        metadata: Seq::empty(),
                        chapters: Seq::empty(),
                    },
                    main.time_bases,
                ) {
                    Err(error) => Err(error),
                    Ok((draft, at)) => {
                        let missing = first_missing(draft.streams);
                        if missing < draft.streams.len() {
                            Err(
                                NutError::Malformed(
                                    Fault::StreamWithoutHeader(missing as usize),
                                ),
                            )
                        } else {
                            Ok(
                                OpenedModel {
                                    header: HeaderModel {
                                        streams: Seq::new(
                                            draft.streams.len(),
                                            |i: int| draft.streams[i]->0,
                                        ),
                                        metadata: draft.metadata,
                                        chapters: draft.chapters,
                                    },
                                    main,
                                    at,
                                },
                            )
                        }
                    },
                },
            },
        }
    }
}

/// Everything before the first frame, and what reading the frames needs.
#[derive(Debug)]
pub struct Opened {
    pub header: Header,
    pub main: Main,
    pub at: usize,
}

/// Read the headers from `at` on, to the first syncpoint.
fn read_headers(s: &[u8], from: usize, draft: &mut Draft, time_bases: &Vec<Rational>) -> (at:
    Result<usize, NutError>)
    requires
        from <= s.len(),
        time_bases@.len() > 0,
        old(draft).wf(),
    ensures
        final(draft).wf(),
        final(draft).streams@.len() == old(draft).streams@.len(),
        match (at, headers_at(s@, from as int, old(draft)@, time_bases@)) {
            (Ok(at), Ok((there, end))) => final(draft)@ == there && at == end && at <= s.len(),
            (Err(a), Err(b)) => a == b,
            _ => false,
        },
{
    let mut at: usize = from;
    loop
        invariant
            at <= s.len(),
            time_bases@.len() > 0,
            draft.wf(),
            draft.streams@.len() == old(draft).streams@.len(),
            headers_at(s@, from as int, old(draft)@, time_bases@) == headers_at(
                s@,
                at as int,
                draft@,
                time_bases@,
            ),
        decreases s.len() - at,
    {
        if at >= s.len() {
            return Err(NutError::NoHeaders);
        }
        if s.len() - at < 8 {
            return Err(NutError::Malformed(Fault::EndsInStartcode));
        }
        let code: u64 = startcode(s, at);
        if code == SYNCPOINT_STARTCODE {
            return Ok(at);
        }
        proof {
            reveal(header_taken);
        }
        let (body, next) = match packet_body(s, at + 8, code) {
            Ok(found) => found,
            Err(fault) => {
                return Err(NutError::Malformed(fault));
            },
        };
        if code == STREAM_STARTCODE {
            match stream_header(body, time_bases) {
                Ok((id, stream)) => {
                    if id >= draft.streams.len() {
                        return Err(NutError::Malformed(Fault::StreamNotDeclared(id)));
                    }
                    let ghost before = draft@;
                    let ghost there = stream@;
                    draft.streams.set(id, Some(stream));
                    assert(draft@.streams =~= before.streams.update(id as int, Some(there)));
                },
                Err(fault) => {
                    return Err(NutError::Malformed(fault));
                },
            }
        } else if code == INFO_STARTCODE {
            match draft.info(body, time_bases) {
                Ok(_) => {},
                Err(fault) => {
                    return Err(NutError::Malformed(fault));
                },
            }
        }
        at = next;
    }
}

/// Every stream's header, once each has one.
fn finished(slots: Vec<Option<StreamHeader>>) -> (list: Result<Vec<StreamHeader>, Fault>)
    requires
        forall|i: int|
            0 <= i < slots@.len() && (#[trigger] slots@[i]) is Some ==> slots@[i]->0.msb_pts_shift
                < 16,
    ensures
        ({
            let there = Seq::new(slots@.len(), |i: int| slot(slots@[i]));
            let missing = first_missing(there);
            match list {
                Ok(list) => {
                    &&& missing >= there.len()
                    &&& Seq::new(list@.len(), |i: int| list@[i]@) == Seq::new(
                        there.len(),
                        |i: int| there[i]->0,
                    )
                    &&& forall|i: int|
                        0 <= i < list@.len() ==> (#[trigger] list@[i]).msb_pts_shift < 16
                },
                Err(fault) => missing < there.len() && fault == Fault::StreamWithoutHeader(
                    missing as usize,
                ),
            }
        }),
{
    let ghost all = slots@;
    let ghost there = Seq::new(all.len(), |i: int| slot(all[i]));
    let mut missing: usize = 0;
    while missing < slots.len() && slots[missing].is_some()
        invariant
            missing <= slots.len(),
            slots@ == all,
            there == Seq::new(all.len(), |i: int| slot(all[i])),
            forall|j: int| 0 <= j < missing ==> #[trigger] there[j] is Some,
        decreases slots.len() - missing,
    {
        missing = missing + 1;
    }
    proof {
        lemma_first_missing_is(there, missing as int);
    }
    if missing < slots.len() {
        return Err(Fault::StreamWithoutHeader(missing));
    }
    assert forall|j: int| 0 <= j < all.len() implies (#[trigger] all[j]) is Some by {
        assert(there[j] is Some);
    }
    let mut left: Vec<Option<StreamHeader>> = slots;
    let mut list: Vec<StreamHeader> = Vec::new();
    while left.len() > 0
        invariant
            left@ == all.skip(list@.len() as int),
            list@.len() <= all.len(),
            forall|j: int| 0 <= j < all.len() ==> (#[trigger] all[j]) is Some,
            forall|j: int| 0 <= j < list@.len() ==> Some(#[trigger] list@[j]) == all[j],
        decreases left.len(),
    {
        let ghost n = list@.len();
        if let Some(stream) = left.remove(0) {
            assert(Some(stream) == all[n as int]);
            list.push(stream);
        }
        assert(left@ =~= all.skip(n as int + 1));
    }
    proof {
        assert forall|i: int| 0 <= i < all.len() implies (#[trigger] list@[i])@ == there[i]->0
            && list@[i].msb_pts_shift < 16 by {
            assert(Some(list@[i]) == all[i]);
        }
        assert(Seq::new(list@.len(), |i: int| list@[i]@) =~= Seq::new(
            there.len(),
            |i: int| there[i]->0,
        ));
    }
    Ok(list)
}

/// Read the headers: the main header, every stream header, and the info
/// packets before the first syncpoint.
pub fn open_stream(s: &[u8]) -> (read: Result<Opened, NutError>)
    ensures
        match (read, opened(s@)) {
            (Ok(read), Ok(there)) => {
                &&& read.header@ == there.header
                &&& read.main@ == there.main
                &&& read.at == there.at
                &&& read.at <= s.len()
                &&& read.main.time_bases@.len() > 0
                &&& read.main.codes@.len() == 256
                &&& forall|i: int|
                    0 <= i < read.header.streams@.len() ==> (
                    #[trigger] read.header.streams@[i]).msb_pts_shift < 16
            },
            (Err(a), Err(b)) => a == b,
            _ => false,
        },
{
    let mut start: usize = 0;
    while s.len() - start >= 8 && startcode(s, start) != MAIN_STARTCODE
        invariant
            start <= s.len(),
            forall|j: int|
                0 <= j < start && j + 8 <= s.len() ==> #[trigger] startcode_at(s@, j)
                    != MAIN_STARTCODE,
        decreases s.len() - start,
    {
        start = start + 1;
    }
    if s.len() - start < 8 {
        proof {
            lemma_main_at_is(s@, s@.len() as int);
        }
        return Err(NutError::NoHeaders);
    }
    proof {
        lemma_main_at_is(s@, start as int);
    }
    let (body, next) = match packet_body(s, start + 8, MAIN_STARTCODE) {
        Ok(found) => found,
        Err(fault) => {
            return Err(NutError::Malformed(fault));
        },
    };
    let main: Main = match main_header(body) {
        Ok(main) => main,
        Err(fault) => {
            return Err(NutError::Malformed(fault));
        },
    };
    let mut streams: Vec<Option<StreamHeader>> = Vec::new();
    let mut i: usize = 0;
    while i < main.streams
        invariant
            i <= main.streams,
            streams@.len() == i,
            forall|j: int| 0 <= j < i ==> #[trigger] streams@[j] is None,
        decreases main.streams - i,
    {
        streams.push(None);
        i = i + 1;
    }
    let mut draft = Draft { streams, metadata: Vec::new(), chapters: Vec::new() };
    assert(draft@.streams =~= Seq::new(main.streams as nat, |i: int| None::<StreamModel>));
    assert(draft@.metadata =~= Seq::<Tag>::empty());
    assert(draft@.chapters =~= Seq::<ChapterModel>::empty());
    let at: usize = read_headers(s, next, &mut draft, &main.time_bases)?;
    let Draft { streams, metadata, chapters } = draft;
    let streams: Vec<StreamHeader> = match finished(streams) {
        Ok(streams) => streams,
        Err(fault) => {
            return Err(NutError::Malformed(fault));
        },
    };
    let header = Header { streams, metadata, chapters };
    Ok(Opened { header, main, at })
}

} // verus!
