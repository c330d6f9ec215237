//! Reading a stream.
use super::cursor::{field_at, Bytes};
use super::fault::{Fault, NutError};
use super::header::{body_at, lemma_body_ends, open_stream, opened, packet_body, startcode};
use super::header::{startcode_at, Opened};
use super::number::{checksum, crc, read_number, v_at};
use super::table::{index_of, MainModel};
use super::{flagged, FrameCode, Header, Packet, PacketModel, StreamModel};
use super::{FLAG_CHECKSUM, FLAG_CODED, FLAG_CODED_PTS, FLAG_HEADER_IDX, FLAG_INVALID, FLAG_KEY};
use super::{FLAG_MATCH_TIME, FLAG_RESERVED, FLAG_SIZE_MSB, FLAG_SM_DATA, FLAG_STREAM_ID};
use super::{INDEX_STARTCODE, INFO_STARTCODE, MAIN_STARTCODE, MAX_FRAME, STARTCODE_BYTE};
use super::{STREAM_STARTCODE, SYNCPOINT_STARTCODE};
use crate::num::{clamped, saturating_add};
use crate::probe::Rational;
use crate::time::{rescale, rescaled, Rounding};
use vstd::prelude::*;
use vstd::slice::slice_subrange;

verus! {

/// What reading frames goes by.
pub struct ReadingModel {
    pub streams: Seq<StreamModel>,
    pub main: MainModel,
}

/// A number of a frame's header that is there only where `present`.
pub open spec fn maybe_v_at(s: Seq<u8>, at: int, present: bool, default: u64) -> Result<
    (u64, int),
    Fault,
> {
    if present {
        v_at(s, at, Fault::EndsInNumber)
    } else {
        Ok((default, at))
    }
}

/// Where `count` numbers from `at` on end.
pub open spec fn past_numbers(s: Seq<u8>, at: int, count: int) -> Result<int, Fault>
    decreases count,
{
    if count <= 0 {
        Ok(at)
    } else {
        match v_at(s, at, Fault::EndsInNumber) {
            Ok((_, next)) => past_numbers(s, next, count - 1),
            Err(fault) => Err(fault),
        }
    }
}

/// `2` to the power of `n`.
pub open spec fn pow2(n: u64) -> int
    decreases n,
{
    if n == 0 {
        1
    } else {
        2 * pow2((n - 1) as u64)
    }
}

/// The timestamp a frame's coded one stands for. One below the stream's full
/// range gives only its low bits, and stands for the timestamp nearest the last
/// one that ends in them; any other is the timestamp itself.
pub open spec fn pts_of(coded: u64, shift: u64, last: i64) -> i64 {
    let full = pow2(shift);
    if coded < full {
        let low = last - (full - 1) / 2;
        clamped((coded - low) % full + low)
    } else {
        clamped(coded - full)
    }
}

/// What a frame's header says.
pub struct FrameHead {
    pub flags: u64,
    pub stream: u64,
    pub pts: i64,
    pub size: int,
    pub header_idx: usize,
}

/// The product of two numbers, as far as it fits.
pub open spec fn product(a: u64, b: u64) -> int {
    if a * b > u64::MAX {
        u64::MAX as int
    } else {
        a * b
    }
}

/// The sum of two numbers, as far as it fits.
pub open spec fn sum(a: int, b: int) -> int {
    if a + b > u64::MAX {
        u64::MAX as int
    } else {
        a + b
    }
}

/// The frame header at `at`, and where it ends, its checksum not counted.
pub open spec fn head_at(reading: ReadingModel, last: Seq<i64>, s: Seq<u8>, at: int) -> Result<
    (FrameHead, int),
    Fault,
> {
    let code = reading.main.codes[s[at] as int];
    if flagged(code.flags, FLAG_INVALID) {
        Err(Fault::InvalidCode(s[at]))
    } else {
        match maybe_v_at(s, at + 1, flagged(code.flags, FLAG_CODED), 0) {
            Err(fault) => Err(fault),
            Ok((changed, at)) => {
                let flags = code.flags ^ changed;
                match maybe_v_at(s, at, flagged(flags, FLAG_STREAM_ID), code.stream) {
                    Err(fault) => Err(fault),
                    Ok((stream, at)) => if stream >= reading.streams.len() {
                        Err(Fault::FrameOfStream(stream))
                    } else {
                        match maybe_v_at(s, at, flagged(flags, FLAG_CODED_PTS), 0) {
                            Err(fault) => Err(fault),
                            Ok((coded, at)) => {
                                let before = last[stream as int];
                                let pts = if flagged(flags, FLAG_CODED_PTS) {
                                    pts_of(
                                        coded,
                                        reading.streams[stream as int].msb_pts_shift,
                                        before,
                                    )
                                } else {
                                    clamped(before + code.pts_delta)
                                };
                                sizes_at(s, at, code, flags, stream, pts)
                            },
                        }
                    },
                }
            },
        }
    }
}

/// A frame header from its size on.
#[verifier::opaque]
pub open spec fn sizes_at(
    s: Seq<u8>,
    at: int,
    code: FrameCode,
    flags: u64,
    stream: u64,
    pts: i64,
) -> Result<(FrameHead, int), Fault> {
    match maybe_v_at(s, at, flagged(flags, FLAG_SIZE_MSB), 0) {
        Err(fault) => Err(fault),
        Ok((high, at)) => match maybe_v_at(s, at, flagged(flags, FLAG_MATCH_TIME), 0) {
            Err(fault) => Err(fault),
            Ok((_, at)) => match maybe_v_at(s, at, flagged(flags, FLAG_HEADER_IDX), 0) {
                Err(fault) => Err(fault),
                Ok((index, at)) => match maybe_v_at(
                    s,
                    at,
                    flagged(flags, FLAG_RESERVED),
                    code.reserved,
                ) {
                    Err(fault) => Err(fault),
                    Ok((reserved, at)) => match past_numbers(
                        s,
                        at,
                        if reserved < 256 {
                            reserved as int
                        } else {
                            256
                        },
                    ) {
                        Err(fault) => Err(fault),
                        Ok(at) => {
                            let size = if flagged(flags, FLAG_SIZE_MSB) {
                                sum(code.size_lsb as int, product(code.size_mul, high))
                            } else {
                                code.size_lsb as int
                            };
                            if flagged(flags, FLAG_SM_DATA) {
                                Err(Fault::SideData)
                            } else {
                                Ok(
                                    (
                                        FrameHead {
                                            flags,
                                            stream,
                                            pts,
                                            size,
                                            header_idx: if size > 4096 {
                                                0
                                            } else if flagged(flags, FLAG_HEADER_IDX) {
                                                index_of(index)
                                            } else {
                                                code.header_idx
                                            },
                                        },
                                        at,
                                    ),
                                )
                            }
                        },
                    },
                },
            },
        },
    }
}

/// The frame at `at`, and where it ends: its header, a checksum of that where
/// it is flagged, and its data, what is left off its front put back.
pub open spec fn frame_at(reading: ReadingModel, last: Seq<i64>, s: Seq<u8>, at: int) -> Result<
    (PacketModel, int),
    Fault,
> {
    match head_at(reading, last, s, at) {
        Err(fault) => Err(fault),
        Ok((head, next)) => if head.header_idx >= reading.main.elision.len() {
            Err(Fault::ElisionMissing)
        } else {
            let elided = reading.main.elision[head.header_idx as int];
            let checked = flagged(head.flags, FLAG_CHECKSUM);
            let start = if checked {
                next + 4
            } else {
                next
            };
            let size = head.size - elided.len();
            if size < 0 {
                Err(Fault::ShorterThanHeader)
            } else if checked && start > s.len() {
                Err(Fault::EndsInPacket)
            } else if checked && checksum(0, s.subrange(at, start)) != 0 {
                Err(Fault::FrameChecksum)
            } else if size > MAX_FRAME {
                Err(Fault::TooLarge(size as u64))
            } else if start + size > s.len() {
                Err(Fault::EndsInPacket)
            } else {
                Ok(
                    (
                        PacketModel {
                            stream: head.stream as int,
                            pts: head.pts,
                            key: flagged(head.flags, FLAG_KEY),
                            data: elided + s.subrange(start, start + size),
                        },
                        start + size,
                    ),
                )
            }
        },
    }
}

/// `ticks` of one time base in ticks of another, rounded down, and left as they
/// are where that cannot be counted.
pub open spec fn moved(ticks: i64, from: Rational, to: Rational) -> i64 {
    match rescaled(ticks, from, to, Rounding::Down) {
        Some(moved) => moved,
        None => ticks,
    }
}

/// The last timestamps after a syncpoint: its own, in every stream's time base.
pub open spec fn synced(body: Seq<u8>, reading: ReadingModel) -> Result<Seq<i64>, Fault> {
    match field_at(body, 0) {
        Err(fault) => Err(fault),
        Ok((coded, _)) => {
            let count = reading.main.time_bases.len() as int;
            let base = reading.main.time_bases[coded as int % count];
            let ticks = clamped(coded as int / count);
            Ok(
                Seq::new(
                    reading.streams.len(),
                    |i: int| moved(ticks, base, reading.streams[i].time_base),
                ),
            )
        },
    }
}

/// A startcode a reader reads past.
pub open spec fn skipped(code: int) -> bool {
    code == MAIN_STARTCODE || code == STREAM_STARTCODE || code == INFO_STARTCODE || code
        == INDEX_STARTCODE
}

/// What the next packet is, where the stream goes on after it, and the last
/// timestamps by then; no packet at the end.
pub struct NextModel {
    pub packet: Option<PacketModel>,
    pub last: Seq<i64>,
    pub at: int,
}

/// The next packet from `at` on: syncpoints are taken in, repeated headers and
/// the index read past.
pub open spec fn next_at(reading: ReadingModel, last: Seq<i64>, s: Seq<u8>, at: int) -> Result<
    NextModel,
    Fault,
>
    decreases s.len() - at,
    via next_decreases
{
    if at < 0 || at >= s.len() {
        Ok(NextModel { packet: None, last, at })
    } else if s[at] == STARTCODE_BYTE {
        if at + 8 > s.len() {
            Err(Fault::EndsInStartcode)
        } else {
            let code = startcode_at(s, at);
            if code == SYNCPOINT_STARTCODE || skipped(code) {
                match body_at(s, at + 8, code as u64) {
                    Err(fault) => Err(fault),
                    Ok((body, next)) => if code == SYNCPOINT_STARTCODE {
                        match synced(body, reading) {
                            Err(fault) => Err(fault),
                            Ok(last) => next_at(reading, last, s, next),
                        }
                    } else {
                        next_at(reading, last, s, next)
                    },
                }
            } else {
                Err(Fault::UnknownStartcode(code as u64))
            }
        }
    } else {
        match frame_at(reading, last, s, at) {
            Err(fault) => Err(fault),
            Ok((packet, next)) => Ok(
                NextModel {
                    packet: Some(packet),
                    last: last.update(packet.stream, packet.pts),
                    at: next,
                },
            ),
        }
    }
}

#[via_fn]
proof fn next_decreases(reading: ReadingModel, last: Seq<i64>, s: Seq<u8>, at: int) {
    if at >= 0 {
        lemma_body_ends(s, at + 8, startcode_at(s, at) as u64);
    }
}

/// Reads the NUT stream FFmpeg writes.
#[derive(Debug)]
pub struct Reader {
    /// What of the stream is here.
    pub input: Vec<u8>,
    /// Where the next packet begins.
    pub at: usize,
    pub opened: Opened,
    pub last_pts: Vec<i64>,
}

/// A number of a frame's header that is there only where `present`.
fn maybe_number(s: &[u8], at: usize, present: bool, default: u64) -> (read: Result<
    (u64, usize),
    Fault,
>)
    requires
        at <= s.len(),
    ensures
        match (read, maybe_v_at(s@, at as int, present, default)) {
            (Ok((n, next)), Ok((there, end))) => n == there && next == end && at <= next
                <= s.len(),
            (Err(a), Err(b)) => a == b,
            _ => false,
        },
{
    if present {
        read_number(s, at, Fault::EndsInNumber)
    } else {
        Ok((default, at))
    }
}

/// Where `count` numbers from `at` on end.
fn skip_numbers(s: &[u8], from: usize, count: u64) -> (end: Result<usize, Fault>)
    requires
        from <= s.len(),
    ensures
        match (end, past_numbers(s@, from as int, count as int)) {
            (Ok(end), Ok(there)) => end == there && from <= end <= s.len(),
            (Err(a), Err(b)) => a == b,
            _ => false,
        },
{
    let mut at: usize = from;
    let mut left: u64 = count;
    while left > 0
        invariant
            from <= at <= s.len(),
            past_numbers(s@, from as int, count as int) == past_numbers(
                s@,
                at as int,
                left as int,
            ),
        decreases left,
    {
        let (_, next) = read_number(s, at, Fault::EndsInNumber)?;
        at = next;
        left = left - 1;
    }
    Ok(at)
}

/// `2` to the power of `shift`.
fn full_range(shift: u64) -> (full: u64)
    requires
        shift < 16,
    ensures
        full == pow2(shift),
        1 <= full <= 32768,
{
    let mut full: u64 = 1;
    let mut i: u64 = 0;
    while i < shift
        invariant
            i <= shift < 16,
            full == pow2(i),
            1 <= full,
            i == 0 ==> full <= 1,
            i == 1 ==> full <= 2,
            i == 2 ==> full <= 4,
            i == 3 ==> full <= 8,
            i == 4 ==> full <= 16,
            i == 5 ==> full <= 32,
            i == 6 ==> full <= 64,
            i == 7 ==> full <= 128,
            i == 8 ==> full <= 256,
            i == 9 ==> full <= 512,
            i == 10 ==> full <= 1024,
            i == 11 ==> full <= 2048,
            i == 12 ==> full <= 4096,
            i == 13 ==> full <= 8192,
            i == 14 ==> full <= 16384,
            i == 15 ==> full <= 32768,
        decreases shift - i,
    {
        full = full * 2;
        i = i + 1;
    }
    full
}

/// The timestamp a frame's coded one stands for.
fn timestamp(coded: u64, shift: u64, last: i64) -> (pts: i64)
    requires
        shift < 16,
    ensures
        pts == pts_of(coded, shift, last),
{
    let full: u64 = full_range(shift);
    if coded < full {
        let low: i128 = last as i128 - ((full - 1) / 2) as i128;
        let full: i128 = full as i128;
        let offset: i128 = coded as i128 - low;
        proof {
            vstd::arithmetic::div_mod::lemma_mod_bound(offset as int, full as int);
        }
        let rest: i128 = match offset.checked_rem_euclid(full) {
            Some(rest) => rest,
            None => 0,
        };
        let pts: i128 = rest + low;
        if pts > i64::MAX as i128 {
            i64::MAX
        } else if pts < i64::MIN as i128 {
            i64::MIN
        } else {
            pts as i64
        }
    } else {
        let pts: u64 = coded - full;
        if pts > i64::MAX as u64 {
            i64::MAX
        } else {
            pts as i64
        }
    }
}

/// What a frame's header says.
#[derive(Debug, Clone, Copy, PartialEq, Eq, Structural)]
pub struct Head {
    pub flags: u64,
    pub stream: usize,
    pub pts: i64,
    pub size: u64,
    pub header_idx: usize,
}

/// A frame header from its size on.
fn sizes(s: &[u8], at: usize, code: FrameCode, flags: u64, stream: usize, pts: i64) -> (read: Result<
    (Head, usize),
    Fault,
>)
    requires
        at <= s.len(),
    ensures
        match (read, sizes_at(s@, at as int, code, flags, stream as u64, pts)) {
            (Ok((head, next)), Ok((there, end))) => {
                &&& head.flags == there.flags
                &&& head.stream == there.stream && head.stream == stream
                &&& head.pts == there.pts
                &&& head.size == there.size
                &&& head.header_idx == there.header_idx
                &&& next == end && at <= next <= s.len()
            },
            (Err(a), Err(b)) => a == b,
            _ => false,
        },
{
    proof {
        reveal(sizes_at);
    }
    let (high, next) = maybe_number(s, at, flags & FLAG_SIZE_MSB != 0, 0)?;
    let (_, next) = maybe_number(s, next, flags & FLAG_MATCH_TIME != 0, 0)?;
    let (index, next) = maybe_number(s, next, flags & FLAG_HEADER_IDX != 0, 0)?;
    let (reserved, next) = maybe_number(
        s,
        next,
        flags & FLAG_RESERVED != 0,
        code.reserved,
    )?;
    let next: usize = skip_numbers(
        s,
        next,
        if reserved < 256 {
            reserved
        } else {
            256
        },
    )?;
    let size: u64 = if flags & FLAG_SIZE_MSB != 0 {
        let scaled: u64 = match code.size_mul.checked_mul(high) {
            Some(scaled) => scaled,
            None => u64::MAX,
        };
        code.size_lsb.saturating_add(scaled)
    } else {
        code.size_lsb
    };
    if flags & FLAG_SM_DATA != 0 {
        return Err(Fault::SideData);
    }
    let header_idx: usize = if size > 4096 {
        0
    } else if flags & FLAG_HEADER_IDX != 0 {
        if index > usize::MAX as u64 {
            usize::MAX
        } else {
            index as usize
        }
    } else {
        code.header_idx
    };
    Ok((Head { flags, stream, pts, size, header_idx }, next))
}

impl Reader {
    /// What reading frames goes by.
    pub open spec fn reading(&self) -> ReadingModel {
        ReadingModel { streams: self.opened.header@.streams, main: self.opened.main@ }
    }

    /// The headers were read whole, and the reader is within its input.
    pub open spec fn wf(&self) -> bool {
        &&& self.at <= self.input@.len()
        &&& self.last_pts@.len() == self.opened.header.streams@.len()
        &&& self.opened.main.time_bases@.len() > 0
        &&& self.opened.main.codes@.len() == 256
        &&& forall|i: int|
            0 <= i < self.opened.header.streams@.len() ==> (
            #[trigger] self.opened.header.streams@[i]).msb_pts_shift < 16
    }

    /// Read the headers: the main header, every stream header, and the info
    /// packets before the first syncpoint.
    pub fn open(input: Vec<u8>) -> (reader: Result<Reader, NutError>)
        ensures
            match (reader, opened(input@)) {
                (Ok(reader), Ok(there)) => {
                    &&& reader.wf()
                    &&& reader.input@ == input@
                    &&& reader.at == there.at
                    &&& reader.opened.header@ == there.header
                    &&& reader.opened.main@ == there.main
                    &&& reader.last_pts@ == Seq::new(there.header.streams.len(), |i: int| 0i64)
                },
                (Err(a), Err(b)) => a == b,
                _ => false,
            },
    {
        let opened: Opened = open_stream(&input)?;
        let mut last_pts: Vec<i64> = Vec::new();
        let mut i: usize = 0;
        while i < opened.header.streams.len()
            invariant
                i <= opened.header.streams.len(),
                last_pts@ == Seq::new(i as nat, |i: int| 0i64),
            decreases opened.header.streams.len() - i,
        {
            last_pts.push(0);
            i = i + 1;
            assert(last_pts@ =~= Seq::new(i as nat, |i: int| 0i64));
        }
        let at: usize = opened.at;
        Ok(Reader { input, at, opened, last_pts })
    }

    /// Everything before the first frame.
    pub fn header(&self) -> (header: &Header)
        ensures
            *header == self.opened.header,
    {
        &self.opened.header
    }

    /// Add to what of the stream is here, and drop what has been read.
    pub fn feed(&mut self, more: &[u8])
        requires
            old(self).wf(),
        ensures
            final(self).wf(),
            final(self).input@.skip(final(self).at as int) == old(self).input@.skip(
                old(self).at as int,
            ) + more@,
            final(self).opened == old(self).opened,
            final(self).last_pts == old(self).last_pts,
    {
        let mut input: Vec<u8> = Vec::new();
        crate::bytes::push_all(&mut input, slice_subrange(&self.input, self.at, self.input.len()));
        crate::bytes::push_all(&mut input, more);
        assert(input@.skip(0) =~= old(self).input@.skip(old(self).at as int) + more@);
        self.input = input;
        self.at = 0;
    }

    /// The frame header at `at`, and where it ends.
    fn head(&self, last: &Vec<i64>, at: usize) -> (read: Result<(Head, usize), Fault>)
        requires
            self.wf(),
            at < self.input@.len(),
            last@.len() == self.opened.header.streams@.len(),
        ensures
            match (read, head_at(self.reading(), last@, self.input@, at as int)) {
                (Ok((head, next)), Ok((there, end))) => {
                    &&& head.flags == there.flags
                    &&& head.stream == there.stream
                    &&& head.pts == there.pts
                    &&& head.size == there.size
                    &&& head.header_idx == there.header_idx
                    &&& next == end && at < next <= self.input@.len()
                    &&& head.stream < last@.len()
                },
                (Err(a), Err(b)) => a == b,
                _ => false,
            },
    {
        assert(at < self.input.len());
        let code: FrameCode = self.opened.main.codes[self.input[at] as usize];
        if code.flags & FLAG_INVALID != 0 {
            return Err(Fault::InvalidCode(self.input[at]));
        }
        let (changed, next) = maybe_number(
            &self.input,
            at + 1,
            code.flags & FLAG_CODED != 0,
            0,
        )?;
        let flags: u64 = code.flags ^ changed;
        let (stream, next) = maybe_number(
            &self.input,
            next,
            flags & FLAG_STREAM_ID != 0,
            code.stream,
        )?;
        if stream >= self.opened.header.streams.len() as u64 {
            return Err(Fault::FrameOfStream(stream));
        }
        let id: usize = stream as usize;
        let (coded, next) = maybe_number(&self.input, next, flags & FLAG_CODED_PTS != 0, 0)?;
        let before: i64 = last[id];
        let shift: u64 = self.opened.header.streams[id].msb_pts_shift;
        assert(self.reading().streams[id as int].msb_pts_shift == shift);
        let pts: i64 = if flags & FLAG_CODED_PTS != 0 {
            timestamp(coded, shift, before)
        } else {
            saturating_add(before, code.pts_delta)
        };
        sizes(&self.input, next, code, flags, id, pts)
    }

    /// The frame at `at`, and where it ends.
    fn frame(&self, last: &Vec<i64>, at: usize) -> (read: Result<(Packet, usize), Fault>)
        requires
            self.wf(),
            at < self.input@.len(),
            last@.len() == self.opened.header.streams@.len(),
        ensures
            match (read, frame_at(self.reading(), last@, self.input@, at as int)) {
                (Ok((packet, next)), Ok((there, end))) => packet@ == there && next == end && at
                    < next <= self.input@.len() && packet.stream < last@.len(),
                (Err(a), Err(b)) => a == b,
                _ => false,
            },
    {
        let (head, next) = self.head(last, at)?;
        if head.header_idx >= self.opened.main.elision.len() {
            return Err(Fault::ElisionMissing);
        }
        let elided: &Vec<u8> = &self.opened.main.elision[head.header_idx];
        assert(self.reading().main.elision[head.header_idx as int] == elided@);
        if head.size < elided.len() as u64 {
            return Err(Fault::ShorterThanHeader);
        }
        let size: u64 = head.size - elided.len() as u64;
        let mut start: usize = next;
        if head.flags & FLAG_CHECKSUM != 0 {
            if self.input.len() - next < 4 {
                return Err(Fault::EndsInPacket);
            }
            start = next + 4;
            if crc(0, slice_subrange(&self.input, at, start)) != 0 {
                return Err(Fault::FrameChecksum);
            }
        }
        if size > MAX_FRAME {
            return Err(Fault::TooLarge(size));
        }
        let length: usize = size as usize;
        if length > self.input.len() - start {
            return Err(Fault::EndsInPacket);
        }
        let end: usize = start + length;
        let mut data: Vec<u8> = Vec::new();
        crate::bytes::push_all(&mut data, elided);
        crate::bytes::push_all(&mut data, slice_subrange(&self.input, start, end));
        assert(data@ =~= elided@ + self.input@.subrange(start as int, end as int));
        Ok(
            (
                Packet {
                    stream: head.stream,
                    pts: head.pts,
                    key: head.flags & FLAG_KEY != 0,
                    data,
                },
                end,
            ),
        )
    }

    /// The last timestamps after a syncpoint.
    fn syncpoint(&self, body: &[u8]) -> (last: Result<Vec<i64>, Fault>)
        requires
            self.wf(),
        ensures
            match (last, synced(body@, self.reading())) {
                (Ok(last), Ok(there)) => last@ == there && last@.len()
                    == self.opened.header.streams@.len(),
                (Err(a), Err(b)) => a == b,
                _ => false,
            },
    {
        let mut bytes = Bytes::new(body);
        let coded: u64 = bytes.v()?;
        let count: u64 = self.opened.main.time_bases.len() as u64;
        let base: Rational = self.opened.main.time_bases[(coded % count) as usize];
        let ticks: u64 = coded / count;
        assert(coded as int / count as int >= 0) by (nonlinear_arith)
            requires
                coded >= 0,
                count > 0,
        ;
        let ticks: i64 = if ticks > i64::MAX as u64 {
            i64::MAX
        } else {
            ticks as i64
        };
        let ghost reading = self.reading();
        let mut last: Vec<i64> = Vec::new();
        let mut i: usize = 0;
        while i < self.opened.header.streams.len()
            invariant
                i <= self.opened.header.streams.len(),
                reading == self.reading(),
                last@ == Seq::new(
                    i as nat,
                    |i: int| moved(ticks, base, reading.streams[i].time_base),
                ),
            decreases self.opened.header.streams.len() - i,
        {
            let to: Rational = self.opened.header.streams[i].time_base;
            assert(reading.streams[i as int].time_base == to);
            last.push(
                match rescale(ticks, base, to, Rounding::Down) {
                    Some(moved) => moved,
                    None => ticks,
                },
            );
            i = i + 1;
            assert(last@ =~= Seq::new(
                i as nat,
                |i: int| moved(ticks, base, reading.streams[i].time_base),
            ));
        }
        Ok(last)
    }

    /// The next packet, in the order they were written (decode order), or
    /// `None` at the end. After an error the reader is where it was: where the
    /// stream only ended too early, it can be fed and asked again.
    pub fn next_packet(&mut self) -> (packet: Result<Option<Packet>, NutError>)
        requires
            old(self).wf(),
        ensures
            final(self).wf(),
            final(self).input == old(self).input,
            final(self).opened == old(self).opened,
            packet matches Ok(Some(_)) ==> final(self).at > old(self).at,
            match (
                packet,
                next_at(old(self).reading(), old(self).last_pts@, old(self).input@, old(self).at as int),
            ) {
                (Ok(packet), Ok(there)) => {
                    &&& final(self).at == there.at
                    &&& final(self).last_pts@ == there.last
                    &&& match (packet, there.packet) {
                        (Some(packet), Some(model)) => packet@ == model,
                        (None, None) => true,
                        _ => false,
                    }
                },
                (Err(error), Err(fault)) => error == NutError::Malformed(fault) && *final(self)
                    == *old(self),
                _ => false,
            },
    {
        let mut at: usize = self.at;
        let mut last: Vec<i64> = vstd::slice::slice_to_vec(&self.last_pts);
        let ghost reading = self.reading();
        loop
            invariant
                self.wf(),
                *self == *old(self),
                reading == self.reading(),
                old(self).at <= at <= self.input@.len(),
                last@.len() == self.opened.header.streams@.len(),
                next_at(reading, old(self).last_pts@, self.input@, old(self).at as int) == next_at(
                    reading,
                    last@,
                    self.input@,
                    at as int,
                ),
            decreases self.input@.len() - at,
        {
            if at >= self.input.len() {
                self.at = at;
                self.last_pts = last;
                return Ok(None);
            }
            if self.input[at] == STARTCODE_BYTE {
                if self.input.len() - at < 8 {
                    return Err(NutError::Malformed(Fault::EndsInStartcode));
                }
                let code: u64 = startcode(&self.input, at);
                if code != SYNCPOINT_STARTCODE && code != MAIN_STARTCODE && code
                    != STREAM_STARTCODE && code != INFO_STARTCODE && code != INDEX_STARTCODE {
                    return Err(NutError::Malformed(Fault::UnknownStartcode(code)));
                }
                let (body, next) = match packet_body(&self.input, at + 8, code) {
                    Ok(found) => found,
                    Err(fault) => {
                        return Err(NutError::Malformed(fault));
                    },
                };
                if code == SYNCPOINT_STARTCODE {
                    last =
                    match self.syncpoint(body) {
                        Ok(last) => last,
                        Err(fault) => {
                            return Err(NutError::Malformed(fault));
                        },
                    };
                }
                at = next;
            } else {
                let (packet, next) = match self.frame(&last, at) {
                    Ok(found) => found,
                    Err(fault) => {
                        return Err(NutError::Malformed(fault));
                    },
                };
                last.set(packet.stream, packet.pts);
                self.at = next;
                self.last_pts = last;
                return Ok(Some(packet));
            }
        }
    }
}

} // verus!
