//! The proof of losslessness: the hash boundary, defined once.
//!
//! "Bit-identical" says nothing until it says which bits:
//!
//! - **In**: every byte of every packet's payload — the coded picture or the
//!   coded sound.
//! - **Out**: everything the container says about a packet: its timestamps,
//!   its byte position, its stream index, its flags.
//! - **Out**: parameter sets — H.264 and HEVC VPS/SPS/PPS NAL units, AV1
//!   sequence header and temporal delimiter OBUs — carried inside a packet.
//!   They are the stream's configuration, not its pictures, and a smart-cut
//!   re-sends the source's own before the first copied keyframe after a seam.
use crate::bytes::{
    big_endian, big_endian_round_trip, big_value, lemma_endian_len, pow256, push_all, push_big,
    read_big,
};
use crate::capability::VideoCodec;
use crate::export::nut::header::opened;
use crate::export::nut::read::{next_at, Reader, ReadingModel};
use crate::export::nut::{NutError, PacketModel, StreamModel};
use crate::export::nut::fault::Fault;
use crate::export::obu::{is_sized, lemma_units_in_front, obus, units_at, units_in, Unit};
use crate::export::seam::{
    behind_sets, framed, is_parameter_set, is_set, lead_of, lemma_low_two, Framing,
};
use crate::export::sps::{
    annex_b, annex_b_units, contents, is_annex_b, lemma_unit_in_front, stands_alone, starts_annex_b,
};
use crate::orchestrator::JobError;
use crate::probe::Rational;
use crate::text::{decimal, push_decimal};
use sha2::{Digest, Sha256};
use vstd::prelude::*;
use vstd::slice::slice_subrange;

verus! {

/// One packet, by the hash boundary.
#[derive(Debug, Clone, Copy, PartialEq, Eq)]
pub struct PacketHash {
    /// When it is shown, in microseconds of the file's own timeline — for
    /// finding a range, never compared across files.
    pub micros: i64,
    pub key: bool,
    /// SHA-256 of the payload, parameter sets excluded.
    pub sha256: [u8; 32],
}

/// Why packets could not be read or compared.
#[derive(Debug, PartialEq, Eq)]
pub enum VerifyError {
    Engine(JobError),
    Nut(NutError),
    NoStream(String),
    Probe(String),
}

/// Where two streams first disagree.
#[derive(Debug, Clone, Copy, PartialEq, Eq, Structural)]
pub enum Divergence {
    /// The source shows no keyframe at the start of the range.
    NoKeyframe,
    /// The output does not contain the source's first packet of the range.
    Missing,
    Differs { index: usize },
    Short { missing: usize },
}

impl Divergence {
    /// The divergence in words.
    pub open spec fn words(self) -> Seq<char> {
        match self {
            Divergence::NoKeyframe => "the source shows no keyframe at the start of the range"@,
            Divergence::Missing =>
                "the output does not contain the source's first packet of the range"@,
            Divergence::Differs { index } => "packet "@ + decimal(index as nat)
                + " of the range differs from the source's"@,
            Divergence::Short { missing } => "the output ends "@ + decimal(missing as nat)
                + " packets before the range does"@,
        }
    }

    /// The divergence in words.
    pub fn message(self) -> (text: String)
        ensures
            text@ == self.words(),
    {
        match self {
            Divergence::NoKeyframe => {
                "the source shows no keyframe at the start of the range".to_owned()
            },
            Divergence::Missing => {
                "the output does not contain the source's first packet of the range".to_owned()
            },
            Divergence::Differs { index } => {
                let mut text = "packet ".to_owned();
                push_decimal(&mut text, index as u64);
                text.concat(" of the range differs from the source's")
            },
            Divergence::Short { missing } => {
                let mut text = "the output ends ".to_owned();
                push_decimal(&mut text, missing as u64);
                text.concat(" packets before the range does")
            },
        }
    }
}

/// The codec that a stream's four-character code stands for.
pub open spec fn codec_named(fourcc: Seq<u8>) -> Option<VideoCodec> {
    if fourcc == seq![0x48u8, 0x32, 0x36, 0x34] || fourcc == seq![0x61u8, 0x76, 0x63, 0x31] {
        Some(VideoCodec::H264)
    } else if fourcc == seq![0x48u8, 0x45, 0x56, 0x43] || fourcc == seq![0x68u8, 0x76, 0x63, 0x31]
        || fourcc == seq![0x68u8, 0x65, 0x76, 0x31] {
        Some(VideoCodec::Hevc)
    } else if fourcc == seq![0x41u8, 0x56, 0x30, 0x31] || fourcc == seq![0x61u8, 0x76, 0x30, 0x31] {
        Some(VideoCodec::Av1)
    } else {
        None
    }
}

/// Whether a code is the four bytes given.
fn is_code(fourcc: &[u8], a: u8, b: u8, c: u8, d: u8) -> (yes: bool)
    ensures
        yes == (fourcc@ == seq![a, b, c, d]),
{
    let yes = fourcc.len() == 4 && fourcc[0] == a && fourcc[1] == b && fourcc[2] == c && fourcc[3]
        == d;
    proof {
        if yes {
            assert(fourcc@ =~= seq![a, b, c, d]);
        }
    }
    yes
}

/// The codec that a stream's four-character code stands for: `H264` or
/// `avc1`, `HEVC`, `hvc1` or `hev1`, `AV01` or `av01`.
pub fn codec_of(fourcc: &[u8]) -> (codec: Option<VideoCodec>)
    ensures
        codec == codec_named(fourcc@),
{
    if is_code(fourcc, 0x48, 0x32, 0x36, 0x34) || is_code(fourcc, 0x61, 0x76, 0x63, 0x31) {
        Some(VideoCodec::H264)
    } else if is_code(fourcc, 0x48, 0x45, 0x56, 0x43) || is_code(fourcc, 0x68, 0x76, 0x63, 0x31)
        || is_code(fourcc, 0x68, 0x65, 0x76, 0x31) {
        Some(VideoCodec::Hevc)
    } else if is_code(fourcc, 0x41, 0x56, 0x30, 0x31) || is_code(fourcc, 0x61, 0x76, 0x30, 0x31) {
        Some(VideoCodec::Av1)
    } else {
        None
    }
}

/// The units of a length-prefixed packet from `at` on, each behind its length
/// of `size` bytes; nothing where a length, or what it announces, is cut off.
pub open spec fn prefixed(data: Seq<u8>, at: int, size: int) -> Option<Seq<Seq<u8>>>
    decreases data.len() - at,
{
    if at < 0 || size <= 0 || at >= data.len() {
        Some(Seq::empty())
    } else if at + size > data.len() {
        None
    } else {
        let length = big_value(data.subrange(at, at + size));
        let end = at + size + length;
        if length < 0 || end > data.len() {
            None
        } else {
            match prefixed(data, end, size) {
                Some(rest) => Some(seq![data.subrange(at + size, end)] + rest),
                None => None,
            }
        }
    }
}

/// The NAL units of a length-prefixed packet, or `None` if it is not one.
pub fn length_prefixed(data: &[u8], size: usize) -> (units: Option<Vec<&[u8]>>)
    requires
        1 <= size <= 8,
    ensures
        match prefixed(data@, 0, size as int) {
            Some(list) => units is Some && contents(units->0@) == list,
            None => units is None,
        },
{
    let mut units: Vec<&[u8]> = Vec::new();
    let mut at: usize = 0;
    let ghost all = prefixed(data@, 0, size as int);
    proof {
        assert(contents(units@) =~= Seq::empty());
        if all is Some {
            assert(Seq::<Seq<u8>>::empty() + all->0 =~= all->0);
        }
    }
    while at < data.len()
        invariant
            1 <= size <= 8,
            at <= data@.len(),
            all == prefixed(data@, 0, size as int),
            match prefixed(data@, at as int, size as int) {
                Some(rest) => all == Some(contents(units@) + rest),
                None => all is None,
            },
        decreases data@.len() - at,
    {
        if data.len() - at < size {
            return None;
        }
        let length = read_big(data, at, size);
        let start: usize = at + size;
        if length > (data.len() - start) as u64 {
            return None;
        }
        let end: usize = start + length as usize;
        let ghost held = units@;
        let unit = slice_subrange(data, start, end);
        units.push(unit);
        proof {
            assert(contents(units@) =~= contents(held).push(unit@));
            if let Some(rest) = prefixed(data@, end as int, size as int) {
                assert(contents(held) + (seq![unit@] + rest) =~= contents(units@) + rest);
            }
        }
        at = end;
    }
    proof {
        assert(contents(units@) + Seq::<Seq<u8>>::empty() =~= contents(units@));
    }
    Some(units)
}

/// The units that are no parameter sets, each behind its length of eight
/// bytes.
pub open spec fn pictures(codec: VideoCodec, units: Seq<Seq<u8>>) -> Seq<u8>
    decreases units.len(),
{
    if units.len() == 0 {
        Seq::empty()
    } else {
        (if is_set(codec, units[0]) {
            Seq::empty()
        } else {
            big_endian(units[0].len() as int, 8) + units[0]
        }) + pictures(codec, units.skip(1))
    }
}

/// The units that are neither sequence headers nor temporal delimiters.
pub open spec fn frames(units: Seq<Unit>) -> Seq<u8>
    decreases units.len(),
{
    if units.len() == 0 {
        Seq::empty()
    } else {
        (if units[0].kind == 1 || units[0].kind == 2 {
            Seq::empty()
        } else {
            units[0].bytes
        }) + frames(units.skip(1))
    }
}

/// What of a packet lies inside the hash boundary: its parameter sets out,
/// every other byte in. A packet that cannot be taken apart is in whole.
pub open spec fn boundary_of(
    codec: Option<VideoCodec>,
    framing: Option<usize>,
    data: Seq<u8>,
) -> Seq<u8> {
    match codec {
        Some(VideoCodec::H264) | Some(VideoCodec::Hevc) => match framing {
            Some(size) => match prefixed(data, 0, size as int) {
                Some(units) => pictures(codec->0, units),
                None => data,
            },
            None => pictures(codec->0, annex_b(data)),
        },
        Some(VideoCodec::Av1) => match units_at(data, 0) {
            Some(units) => frames(units),
            None => data,
        },
        _ => data,
    }
}

/// Append the units that are no parameter sets.
fn push_pictures(out: &mut Vec<u8>, codec: VideoCodec, units: &Vec<&[u8]>)
    ensures
        final(out)@ == old(out)@ + pictures(codec, contents(units@)),
{
    let ghost all = contents(units@);
    let ghost before = out@;
    let mut i: usize = 0;
    proof {
        assert(all.skip(0) =~= all);
    }
    while i < units.len()
        invariant
            i <= units@.len(),
            all == contents(units@),
            out@ + pictures(codec, all.skip(i as int)) == before + pictures(codec, all),
        decreases units@.len() - i,
    {
        let unit = units[i];
        let ghost held = out@;
        let ghost rest = pictures(codec, all.skip(i + 1));
        proof {
            assert(all.skip(i as int)[0] == unit@);
            assert(all.skip(i as int).skip(1) =~= all.skip(i + 1));
        }
        if !is_parameter_set(codec, unit) {
            push_big(out, unit.len() as u64, 8);
            push_all(out, unit);
            proof {
                let lead = big_endian(unit@.len() as int, 8);
                assert(out@ + rest =~= held + ((lead + unit@) + rest));
            }
        } else {
            proof {
                assert(held + (Seq::<u8>::empty() + rest) =~= held + rest);
            }
        }
        i += 1;
    }
    proof {
        assert(all.skip(i as int) =~= Seq::empty());
        assert(out@ + Seq::<u8>::empty() =~= out@);
    }
}

/// Append the units that are neither sequence headers nor delimiters.
fn push_frames(out: &mut Vec<u8>, units: &Vec<(u8, &[u8])>)
    ensures
        final(out)@ == old(out)@ + frames(units_in(units@)),
{
    let ghost all = units_in(units@);
    let ghost before = out@;
    let mut i: usize = 0;
    proof {
        assert(all.skip(0) =~= all);
    }
    while i < units.len()
        invariant
            i <= units@.len(),
            all == units_in(units@),
            out@ + frames(all.skip(i as int)) == before + frames(all),
        decreases units@.len() - i,
    {
        let (kind, unit) = units[i];
        let ghost held = out@;
        let ghost rest = frames(all.skip(i + 1));
        proof {
            assert(all.skip(i as int)[0] == (Unit { kind, bytes: unit@ }));
            assert(all.skip(i as int).skip(1) =~= all.skip(i + 1));
        }
        if kind != 1 && kind != 2 {
            push_all(out, unit);
            proof {
                assert(out@ + rest =~= held + (unit@ + rest));
            }
        } else {
            proof {
                assert(held + (Seq::<u8>::empty() + rest) =~= held + rest);
            }
        }
        i += 1;
    }
    proof {
        assert(all.skip(i as int) =~= Seq::empty());
        assert(out@ + Seq::<u8>::empty() =~= out@);
    }
}

/// The bytes of `data` inside the boundary: parameter sets out, every other
/// byte in. `framing` is the NAL length size, or `None` for Annex B or a codec
/// without NAL units.
pub fn boundary(codec: Option<VideoCodec>, framing: Option<usize>, data: &[u8]) -> (out: Vec<u8>)
    requires
        framing is Some ==> 1 <= framing->0 <= 8,
    ensures
        out@ == boundary_of(codec, framing, data@),
{
    let mut out: Vec<u8> = Vec::new();
    let ghost empty = out@;
    match codec {
        Some(VideoCodec::H264) | Some(VideoCodec::Hevc) => {
            let codec = match codec {
                Some(VideoCodec::Hevc) => VideoCodec::Hevc,
                _ => VideoCodec::H264,
            };
            match framing {
                Some(size) => match length_prefixed(data, size) {
                    Some(units) => push_pictures(&mut out, codec, &units),
                    None => push_all(&mut out, data),
                },
                None => {
                    let units = annex_b_units(data);
                    push_pictures(&mut out, codec, &units);
                },
            }
        },
        Some(VideoCodec::Av1) => match obus(data) {
            Some(units) => push_frames(&mut out, &units),
            None => push_all(&mut out, data),
        },
        _ => push_all(&mut out, data),
    }
    proof {
        assert(empty =~= Seq::empty());
        let inside = boundary_of(codec, framing, data@);
        assert(empty + inside =~= inside);
    }
    out
}

/// The SHA-256 of bytes, as `sha2::Sha256` computes it.
pub uninterp spec fn sha256_of(data: Seq<u8>) -> Seq<u8>;

/// The SHA-256 of `data`, by `Sha256::digest` of the sha2 crate. The digest is
/// a function of the bytes alone; nothing else is claimed of it.
#[verifier::external_body]
fn sha256(data: &[u8]) -> (hash: [u8; 32])
    ensures
        hash@ == sha256_of(data@),
{
    Sha256::digest(data).into()
}

/// The hash of `data` by the boundary.
pub fn hash(codec: Option<VideoCodec>, framing: Option<usize>, data: &[u8]) -> (hash: [u8; 32])
    requires
        framing is Some ==> 1 <= framing->0 <= 8,
    ensures
        hash@ == sha256_of(boundary_of(codec, framing, data@)),
{
    let inside = boundary(codec, framing, data);
    sha256(&inside)
}

/// The length size of a stream's NAL units, as its configuration states it:
/// nothing for Annex B, for a codec without NAL units, and where the record is
/// cut off.
pub open spec fn length_size_of(codec: Option<VideoCodec>, extradata: Seq<u8>) -> Option<usize> {
    let at: int = match codec {
        Some(VideoCodec::H264) => 4,
        Some(VideoCodec::Hevc) => 21,
        _ => extradata.len() as int,
    };
    if starts_annex_b(extradata) || at >= extradata.len() {
        None
    } else {
        Some((extradata[at] % 4 + 1) as usize)
    }
}

/// The length size of a stream's NAL units.
fn length_size(codec: Option<VideoCodec>, extradata: &[u8]) -> (size: Option<usize>)
    ensures
        size == length_size_of(codec, extradata@),
        size is Some ==> 1 <= size->0 <= 4,
{
    let at: usize = match codec {
        Some(VideoCodec::H264) => 4,
        Some(VideoCodec::Hevc) => 21,
        _ => extradata.len(),
    };
    if is_annex_b(extradata) || at >= extradata.len() {
        return None;
    }
    proof {
        lemma_low_two(extradata@[at as int]);
    }
    Some((extradata[at] & 0x03) as usize + 1)
}

/// A packet of one stream, hashed by the boundary.
#[derive(Debug, Clone, Copy, PartialEq, Eq)]
pub struct HashedPacket {
    /// In the stream's time base.
    pub pts: i64,
    pub key: bool,
    pub sha256: [u8; 32],
}

/// A stream's packets, hashed by the boundary.
#[derive(Debug, PartialEq, Eq)]
pub struct HashedStream {
    pub time_base: Rational,
    /// In decode order.
    pub packets: Vec<HashedPacket>,
}

/// What a hashed packet says.
pub struct HashModel {
    pub pts: i64,
    pub key: bool,
    pub sha256: Seq<u8>,
}

/// What a list of hashed packets says.
pub open spec fn hashes_in(packets: Seq<HashedPacket>) -> Seq<HashModel> {
    packets.map_values(
        |packet: HashedPacket|
            HashModel { pts: packet.pts, key: packet.key, sha256: packet.sha256@ },
    )
}

/// Every packet from `at` on; or the first fault.
pub open spec fn packets_from(
    reading: ReadingModel,
    last: Seq<i64>,
    s: Seq<u8>,
    at: int,
) -> Result<Seq<PacketModel>, Fault>
    decreases s.len() - at,
{
    match next_at(reading, last, s, at) {
        Err(fault) => Err(fault),
        Ok(next) => match next.packet {
            None => Ok(Seq::empty()),
            Some(packet) => if at < next.at <= s.len() {
                match packets_from(reading, next.last, s, next.at) {
                    Err(fault) => Err(fault),
                    Ok(rest) => Ok(seq![packet] + rest),
                }
            } else {
                Ok(seq![packet])
            },
        },
    }
}

/// Packets, hashed by the boundary of a stream.
pub open spec fn all_hashed(stream: StreamModel, packets: Seq<PacketModel>) -> Seq<HashModel> {
    let codec = codec_named(stream.fourcc);
    let framing = length_size_of(codec, stream.extradata);
    packets.map_values(
        |packet: PacketModel|
            HashModel {
                pts: packet.pts,
                key: packet.key,
                sha256: sha256_of(boundary_of(codec, framing, packet.data)),
            },
    )
}

/// What the packets of a NUT stream hash to, by the boundary of its first
/// stream; or why they cannot be read.
pub open spec fn hashed(input: Seq<u8>) -> Result<(Rational, Seq<HashModel>), Option<NutError>> {
    match opened(input) {
        Err(error) => Err(Some(error)),
        Ok(there) => if there.header.streams.len() == 0 {
            Err(None)
        } else {
            let stream = there.header.streams[0];
            let reading = ReadingModel { streams: there.header.streams, main: there.main };
            let last = Seq::new(there.header.streams.len(), |i: int| 0i64);
            match packets_from(reading, last, input, there.at) {
                Err(fault) => Err(Some(NutError::Malformed(fault))),
                Ok(packets) => Ok((stream.time_base, all_hashed(stream, packets))),
            }
        },
    }
}

/// Every packet of a NUT stream that holds one stream, in the order it stores
/// them — decode order — hashed by the boundary. `selector` names the stream
/// in an error.
pub fn stream_hashes(input: Vec<u8>, selector: &str) -> (result: Result<HashedStream, VerifyError>)
    ensures
        match hashed(input@) {
            Ok((time_base, packets)) => {
                &&& result is Ok
                &&& result->Ok_0.time_base == time_base
                &&& hashes_in(result->Ok_0.packets@) == packets
            },
            Err(Some(error)) => result == Err::<HashedStream, VerifyError>(VerifyError::Nut(error)),
            Err(None) => result matches Err(VerifyError::NoStream(name)) && name@ == selector@,
        },
{
    let mut reader = match Reader::open(input) {
        Ok(reader) => reader,
        Err(error) => {
            return Err(VerifyError::Nut(error));
        },
    };
    if reader.header().streams.len() == 0 {
        return Err(VerifyError::NoStream(selector.to_owned()));
    }
    let stream = &reader.header().streams[0];
    let codec = codec_of(&stream.fourcc);
    let framing = length_size(codec, &stream.extradata);
    let time_base = stream.time_base;
    let ghost model = stream@;
    let ghost reading = reader.reading();
    let ghost all = packets_from(reading, reader.last_pts@, input@, reader.at as int);
    proof {
        let there = opened(input@)->Ok_0;
        assert(there.header.streams[0] == model);
        assert(reading == (ReadingModel { streams: there.header.streams, main: there.main }));
    }
    let mut packets: Vec<HashedPacket> = Vec::new();
    proof {
        assert(hashes_in(packets@) =~= Seq::empty());
        if all is Ok {
            assert(Seq::<HashModel>::empty() + all_hashed(model, all->Ok_0) =~= all_hashed(
                model,
                all->Ok_0,
            ));
        }
    }
    loop
        invariant
            reader.wf(),
            reader.input@ == input@,
            reader.reading() == reading,
            codec == codec_named(model.fourcc),
            framing == length_size_of(codec, model.extradata),
            framing is Some ==> 1 <= framing->0 <= 4,
            time_base == model.time_base,
            match all {
                Ok(packets) => hashed(input@) == Ok::<(Rational, Seq<HashModel>), Option<NutError>>(
                    (model.time_base, all_hashed(model, packets)),
                ),
                Err(fault) => hashed(input@) == Err::<(Rational, Seq<HashModel>), Option<NutError>>(
                    Some(NutError::Malformed(fault)),
                ),
            },
            match packets_from(reading, reader.last_pts@, input@, reader.at as int) {
                Ok(rest) => all is Ok && all_hashed(model, all->Ok_0) == hashes_in(packets@)
                    + all_hashed(model, rest),
                Err(fault) => all == Err::<Seq<PacketModel>, Fault>(fault),
            },
        decreases input@.len() - reader.at,
    {
        let ghost (at, last) = (reader.at as int, reader.last_pts@);
        match reader.next_packet() {
            Err(error) => {
                return Err(VerifyError::Nut(error));
            },
            Ok(None) => {
                proof {
                    let none: Seq<PacketModel> = Seq::empty();
                    assert(hashes_in(packets@) + all_hashed(model, none) =~= hashes_in(packets@));
                }
                return Ok(HashedStream { time_base, packets });
            },
            Ok(Some(packet)) => {
                let ghost held = packets@;
                let sha256 = hash(codec, framing, &packet.data);
                packets.push(HashedPacket { pts: packet.pts, key: packet.key, sha256 });
                proof {
                    let one = HashModel {
                        pts: packet.pts,
                        key: packet.key,
                        sha256: sha256_of(boundary_of(codec, framing, packet.data@)),
                    };
                    assert(hashes_in(packets@) =~= hashes_in(held).push(one));
                    if let Ok(rest) = packets_from(
                        reading,
                        reader.last_pts@,
                        input@,
                        reader.at as int,
                    ) {
                        assert(hashes_in(held) + all_hashed(model, seq![packet@] + rest)
                            =~= hashes_in(packets@) + all_hashed(model, rest));
                    }
                }
            },
        }
    }
}

/// The first of some units, and the rest behind it.
pub proof fn lemma_framed_first(framing: Framing, units: Seq<Seq<u8>>)
    requires
        units.len() > 0,
    ensures
        framed(framing, units) == lead_of(framing, units[0]) + units[0] + framed(
            framing,
            units.skip(1),
        ),
    decreases units.len(),
{
    if units.len() == 1 {
        assert(units.drop_last() =~= Seq::empty());
        assert(units.skip(1) =~= Seq::empty());
        assert(framed(framing, units) =~= lead_of(framing, units[0]) + units[0] + framed(
            framing,
            units.skip(1),
        ));
    } else {
        lemma_framed_first(framing, units.drop_last());
        let rest = units.skip(1);
        assert(units.drop_last().skip(1) =~= rest.drop_last());
        assert(units.drop_last()[0] == units[0]);
        assert(rest.last() == units.last());
        assert(framed(framing, units) =~= lead_of(framing, units[0]) + units[0] + framed(
            framing,
            rest,
        ));
    }
}

/// Length-prefixed units in front of a packet are its first units.
pub proof fn lemma_prefixed_join(units: Seq<Seq<u8>>, size: usize, data: Seq<u8>, before: Seq<u8>)
    requires
        1 <= size <= 8,
        forall|i: int| 0 <= i < units.len() ==> (#[trigger] units[i]).len() < pow256(size as nat),
        prefixed(before + framed(Framing::Length(size), units) + data, (before + framed(Framing::Length(size), units)).len() as int, size as int) is Some,
    ensures
        prefixed(
            before + framed(Framing::Length(size), units) + data,
            before.len() as int,
            size as int,
        ) == Some(
            units + prefixed(
                before + framed(Framing::Length(size), units) + data,
                (before + framed(Framing::Length(size), units)).len() as int,
                size as int,
            )->0,
        ),
    decreases units.len(),
{
    let framing = Framing::Length(size);
    let whole = before + framed(framing, units) + data;
    let rest = prefixed(whole, (before + framed(framing, units)).len() as int, size as int)->0;
    if units.len() == 0 {
        assert(before + framed(framing, units) =~= before);
        assert(units + rest =~= rest);
    } else {
        lemma_framed_first(framing, units);
        let unit = units[0];
        let lead = lead_of(framing, unit);
        let more = before + lead + unit;
        assert(more + framed(framing, units.skip(1)) =~= before + framed(framing, units));
        assert(units[0].len() < pow256(size as nat));
        assert forall|i: int| 0 <= i < units.skip(1).len() implies (
        #[trigger] units.skip(1)[i]).len() < pow256(size as nat) by {
            assert(units[i + 1].len() < pow256(size as nat));
        }
        lemma_prefixed_join(units.skip(1), size, data, more);
        lemma_endian_len(unit.len() as int, size as nat);
        big_endian_round_trip(unit.len() as int, size as nat);
        let at = before.len() as int;
        assert(whole =~= before + (lead + (unit + (framed(framing, units.skip(1)) + data))));
        assert(whole.subrange(at, at + size) =~= lead);
        assert(whole.subrange(at + size, at + size + unit.len()) =~= unit);
        assert(units =~= seq![unit] + units.skip(1));
        assert(units + rest =~= seq![unit] + (units.skip(1) + rest));
    }
}

/// A packet that starts at some place reads the same by itself.
pub proof fn lemma_prefixed_tail(before: Seq<u8>, data: Seq<u8>, at: int, size: int)
    requires
        0 <= at,
        1 <= size,
    ensures
        prefixed(before + data, before.len() + at, size) == prefixed(data, at, size),
    decreases data.len() - at,
{
    let whole = before + data;
    let n = before.len() as int;
    if at < data.len() && at + size <= data.len() {
        assert(whole.subrange(n + at, n + at + size) =~= data.subrange(at, at + size));
        let length = big_value(data.subrange(at, at + size));
        crate::bytes::lemma_big_value(data.subrange(at, at + size));
        let end = at + size + length;
        if end <= data.len() {
            lemma_prefixed_tail(before, data, end, size);
            assert(whole.subrange(n + at + size, n + end) =~= data.subrange(at + size, end));
        }
    }
}

/// Parameter sets in front of units are left out.
proof fn lemma_sets_left_out(codec: VideoCodec, sets: Seq<Seq<u8>>, units: Seq<Seq<u8>>)
    requires
        forall|i: int| 0 <= i < sets.len() ==> is_set(codec, #[trigger] sets[i]),
    ensures
        pictures(codec, sets + units) == pictures(codec, units),
    decreases sets.len(),
{
    if sets.len() == 0 {
        assert(sets + units =~= units);
    } else {
        let all = sets + units;
        assert(is_set(codec, sets[0]));
        assert(all[0] == sets[0]);
        assert(all.skip(1) =~= sets.skip(1) + units);
        assert forall|i: int| 0 <= i < sets.skip(1).len() implies is_set(
            codec,
            #[trigger] sets.skip(1)[i],
        ) by {
            assert(is_set(codec, sets[i + 1]));
        }
        lemma_sets_left_out(codec, sets.skip(1), units);
        assert(pictures(codec, all) =~= pictures(codec, all.skip(1)));
    }
}

/// The size of the lengths before units, where they are framed by lengths.
pub open spec fn size_in(framing: Framing) -> Option<usize> {
    match framing {
        Framing::Length(size) => Some(size),
        Framing::AnnexB => None,
    }
}

/// A packet can be told from the units in front of it: all are framed alike,
/// and whole.
pub open spec fn told_apart(framing: Framing, units: Seq<Seq<u8>>, data: Seq<u8>) -> bool {
    match framing {
        Framing::Length(size) => {
            &&& 1 <= size <= 8
            &&& forall|i: int|
                0 <= i < units.len() ==> (#[trigger] units[i]).len() < pow256(size as nat)
            &&& prefixed(data, 0, size as int) is Some
        },
        Framing::AnnexB => {
            &&& forall|i: int| 0 <= i < units.len() ==> stands_alone(#[trigger] units[i])
            &&& starts_annex_b(data)
        },
    }
}

/// Units in front of an Annex B stream are its first units.
pub proof fn lemma_annex_b_join(units: Seq<Seq<u8>>, data: Seq<u8>)
    requires
        told_apart(Framing::AnnexB, units, data),
    ensures
        starts_annex_b(framed(Framing::AnnexB, units) + data),
        annex_b(framed(Framing::AnnexB, units) + data) == units + annex_b(data),
    decreases units.len(),
{
    let framing = Framing::AnnexB;
    if units.len() == 0 {
        assert(framed(framing, units) + data =~= data);
        assert(units + annex_b(data) =~= annex_b(data));
    } else {
        let rest = units.skip(1);
        assert forall|i: int| 0 <= i < rest.len() implies stands_alone(#[trigger] rest[i]) by {
            assert(rest[i] == units[i + 1]);
        }
        lemma_annex_b_join(rest, data);
        lemma_framed_first(framing, units);
        assert(stands_alone(units[0]));
        let behind = framed(framing, rest) + data;
        lemma_unit_in_front(units[0], behind);
        assert(framed(framing, units) + data =~= seq![0u8, 0, 0, 1] + units[0] + behind);
        assert(units + annex_b(data) =~= seq![units[0]] + (rest + annex_b(data)));
    }
}

/// Parameter sets sent again lie outside the boundary: an H.264 or HEVC packet
/// is hashed the same with them in front and without, however units are
/// framed.
pub proof fn sets_sent_again_change_no_hash(
    codec: VideoCodec,
    framing: Framing,
    sets: Seq<Seq<u8>>,
    data: Seq<u8>,
)
    requires
        codec == VideoCodec::H264 || codec == VideoCodec::Hevc,
        forall|i: int| 0 <= i < sets.len() ==> is_set(codec, #[trigger] sets[i]),
        told_apart(framing, sets, data),
    ensures
        boundary_of(
            Some(codec),
            size_in(framing),
            behind_sets(codec, framed(framing, sets), data),
        ) == boundary_of(Some(codec), size_in(framing), data),
{
    let front = framed(framing, sets);
    match framing {
        Framing::Length(size) => {
            let none: Seq<u8> = Seq::empty();
            assert(none + front =~= front);
            lemma_prefixed_tail(front, data, 0, size as int);
            lemma_prefixed_join(sets, size, data, none);
            lemma_sets_left_out(codec, sets, prefixed(data, 0, size as int)->0);
        },
        Framing::AnnexB => {
            lemma_annex_b_join(sets, data);
            lemma_sets_left_out(codec, sets, annex_b(data));
        },
    }
}

/// Sequence headers and delimiters in front of units are left out.
proof fn lemma_headers_left_out(headers: Seq<Unit>, units: Seq<Unit>)
    requires
        forall|i: int|
            0 <= i < headers.len() ==> (#[trigger] headers[i]).kind == 1 || headers[i].kind == 2,
    ensures
        frames(headers + units) == frames(units),
    decreases headers.len(),
{
    if headers.len() == 0 {
        assert(headers + units =~= units);
    } else {
        let all = headers + units;
        let rest = headers.skip(1);
        assert(all[0] == headers[0]);
        assert(all.skip(1) =~= rest + units);
        assert forall|i: int| 0 <= i < rest.len() implies (#[trigger] rest[i]).kind == 1
            || rest[i].kind == 2 by {
            assert(rest[i] == headers[i + 1]);
        }
        lemma_headers_left_out(rest, units);
        assert(frames(all) =~= frames(all.skip(1)));
    }
}

/// Sequence headers sent again lie outside the boundary: an AV1 packet is
/// hashed the same with them in front and without.
pub proof fn headers_sent_again_change_no_hash(
    framing: Option<usize>,
    headers: Seq<u8>,
    data: Seq<u8>,
)
    requires
        units_at(headers, 0) is Some,
        forall|i: int|
            0 <= i < units_at(headers, 0)->0.len() ==> {
                let unit = #[trigger] units_at(headers, 0)->0[i];
                (unit.kind == 1 || unit.kind == 2) && is_sized(unit.bytes[0])
            },
        units_at(data, 0) is Some,
    ensures
        boundary_of(
            Some(VideoCodec::Av1),
            framing,
            behind_sets(VideoCodec::Av1, headers, data),
        ) == boundary_of(Some(VideoCodec::Av1), framing, data),
{
    let units = units_at(headers, 0)->0;
    assert forall|i: int| 0 <= i < units.len() implies is_sized(
        (#[trigger] units[i]).bytes[0],
    ) by {}
    lemma_units_in_front(headers, data, 0);
    assert forall|i: int| 0 <= i < units.len() implies (#[trigger] units[i]).kind == 1
        || units[i].kind == 2 by {}
    lemma_headers_left_out(units, units_at(data, 0)->0);
}

/// The units that are no parameter sets.
pub open spec fn kept(codec: VideoCodec, units: Seq<Seq<u8>>) -> Seq<Seq<u8>>
    decreases units.len(),
{
    if units.len() == 0 {
        Seq::empty()
    } else if is_set(codec, units[0]) {
        kept(codec, units.skip(1))
    } else {
        seq![units[0]] + kept(codec, units.skip(1))
    }
}

/// Units, each behind its length of eight bytes.
pub open spec fn listed(units: Seq<Seq<u8>>) -> Seq<u8>
    decreases units.len(),
{
    if units.len() == 0 {
        Seq::empty()
    } else {
        big_endian(units[0].len() as int, 8) + units[0] + listed(units.skip(1))
    }
}

/// What is hashed of some units is those that are no parameter sets.
proof fn lemma_kept(codec: VideoCodec, units: Seq<Seq<u8>>)
    ensures
        pictures(codec, units) == listed(kept(codec, units)),
    decreases units.len(),
{
    if units.len() > 0 {
        lemma_kept(codec, units.skip(1));
        if is_set(codec, units[0]) {
            assert(pictures(codec, units) =~= pictures(codec, units.skip(1)));
        } else {
            let all = kept(codec, units);
            assert(all[0] == units[0]);
            assert(all.skip(1) =~= kept(codec, units.skip(1)));
        }
    }
}

/// Units that are listed the same are the same.
proof fn lemma_listed(a: Seq<Seq<u8>>, b: Seq<Seq<u8>>)
    requires
        listed(a) == listed(b),
        forall|i: int| 0 <= i < a.len() ==> (#[trigger] a[i]).len() <= u64::MAX,
        forall|i: int| 0 <= i < b.len() ==> (#[trigger] b[i]).len() <= u64::MAX,
    ensures
        a == b,
    decreases a.len(),
{
    if a.len() > 0 {
        lemma_endian_len(a[0].len() as int, 8);
    }
    if b.len() > 0 {
        lemma_endian_len(b[0].len() as int, 8);
    }
    if a.len() == 0 || b.len() == 0 {
        assert(listed(a).len() == 0 && listed(b).len() == 0);
        assert(a =~= b);
    } else {
        let (m, n) = (a[0].len() as int, b[0].len() as int);
        assert(a[0].len() <= u64::MAX && b[0].len() <= u64::MAX);
        let (x, y) = (listed(a), listed(b));
        assert(x.take(8) =~= big_endian(m, 8));
        assert(y.take(8) =~= big_endian(n, 8));
        crate::bytes::lemma_eight_bytes(8);
        assert(pow256(8) == 0x1_0000_0000_0000_0000) by {
            assert(pow256(0) == 1);
            assert(pow256(1) == 0x100);
            assert(pow256(2) == 0x1_0000);
            assert(pow256(3) == 0x100_0000);
            assert(pow256(4) == 0x1_0000_0000);
            assert(pow256(5) == 0x100_0000_0000);
            assert(pow256(6) == 0x1_0000_0000_0000);
            assert(pow256(7) == 0x100_0000_0000_0000);
        }
        big_endian_round_trip(m, 8);
        big_endian_round_trip(n, 8);
        assert(m == n);
        assert(x.subrange(8, 8 + m) =~= a[0]);
        assert(y.subrange(8, 8 + n) =~= b[0]);
        assert(x.skip(8 + m) =~= listed(a.skip(1)));
        assert(y.skip(8 + n) =~= listed(b.skip(1)));
        assert forall|i: int| 0 <= i < a.skip(1).len() implies (#[trigger] a.skip(1)[i]).len()
            <= u64::MAX by {
            assert(a[i + 1].len() <= u64::MAX);
        }
        assert forall|i: int| 0 <= i < b.skip(1).len() implies (#[trigger] b.skip(1)[i]).len()
            <= u64::MAX by {
            assert(b[i + 1].len() <= u64::MAX);
        }
        lemma_listed(a.skip(1), b.skip(1));
        assert(a =~= seq![a[0]] + a.skip(1));
        assert(b =~= seq![b[0]] + b.skip(1));
    }
}

/// No unit is longer than the longest.
proof fn lemma_kept_fit(codec: VideoCodec, units: Seq<Seq<u8>>)
    requires
        forall|i: int| 0 <= i < units.len() ==> (#[trigger] units[i]).len() <= u64::MAX,
    ensures
        forall|i: int|
            0 <= i < kept(codec, units).len() ==> (#[trigger] kept(codec, units)[i]).len()
                <= u64::MAX,
    decreases units.len(),
{
    if units.len() > 0 {
        assert(units[0].len() <= u64::MAX);
        assert forall|i: int| 0 <= i < units.skip(1).len() implies (
        #[trigger] units.skip(1)[i]).len() <= u64::MAX by {
            assert(units[i + 1].len() <= u64::MAX);
        }
        lemma_kept_fit(codec, units.skip(1));
        if !is_set(codec, units[0]) {
            let all = kept(codec, units);
            assert forall|i: int| 0 <= i < all.len() implies (#[trigger] all[i]).len()
                <= u64::MAX by {
                if i > 0 {
                    assert(all[i] == kept(codec, units.skip(1))[i - 1]);
                }
            }
        }
    }
}

/// Every byte of a picture is inside the boundary: two packets of units that
/// have the same bytes inside it have the same units, parameter sets aside.
pub proof fn the_boundary_holds_every_picture(
    codec: VideoCodec,
    a: Seq<Seq<u8>>,
    b: Seq<Seq<u8>>,
)
    requires
        pictures(codec, a) == pictures(codec, b),
        forall|i: int| 0 <= i < a.len() ==> (#[trigger] a[i]).len() <= u64::MAX,
        forall|i: int| 0 <= i < b.len() ==> (#[trigger] b[i]).len() <= u64::MAX,
    ensures
        kept(codec, a) == kept(codec, b),
{
    lemma_kept(codec, a);
    lemma_kept(codec, b);
    lemma_kept_fit(codec, a);
    lemma_kept_fit(codec, b);
    lemma_listed(kept(codec, a), kept(codec, b));
}

/// The place of the first keyframe at `at` or behind that is shown at a time,
/// a microsecond more or less; the number of packets where there is none.
pub open spec fn key_at(source: Seq<PacketHash>, from: int, at: int) -> int
    decreases source.len() - at,
{
    if at >= source.len() || (source[at].key && -1 <= source[at].micros - from <= 1) {
        at
    } else {
        key_at(source, from, at + 1)
    }
}

/// The place of the first keyframe at `at` or behind that is shown when a
/// range ends, a microsecond early at most; the number of packets where there
/// is none.
pub open spec fn end_at(source: Seq<PacketHash>, to: int, at: int) -> int
    decreases source.len() - at,
{
    if at >= source.len() || (source[at].key && source[at].micros >= to - 1) {
        at
    } else {
        end_at(source, to, at + 1)
    }
}

/// The hashes of the packets of `at..end` that are shown within a range, a
/// microsecond early at most.
pub open spec fn shown_within(
    source: Seq<PacketHash>,
    from: int,
    to: int,
    at: int,
    end: int,
) -> Seq<[u8; 32]>
    decreases end - at,
{
    if at >= end {
        Seq::empty()
    } else if from - 1 <= source[at].micros < to - 1 {
        seq![source[at].sha256] + shown_within(source, from, to, at + 1, end)
    } else {
        shown_within(source, from, to, at + 1, end)
    }
}

/// The packets a copy of a range must contain: from the keyframe shown at its
/// start until the keyframe that ends it, those shown inside it.
pub open spec fn range(source: Seq<PacketHash>, from: int, to: int) -> Option<Seq<[u8; 32]>> {
    let start = key_at(source, from, 0);
    if start >= source.len() {
        None
    } else {
        Some(shown_within(source, from, to, start, end_at(source, to, start + 1)))
    }
}

/// The source's packets a copy of `from..to` (microseconds of the source's
/// timeline) must contain, in decode order: from the keyframe shown at `from`
/// until the keyframe that ends the range, those shown inside it. Without a
/// keyframe there, [`Divergence::NoKeyframe`].
pub fn range_of(source: &[PacketHash], from: i64, to: i64) -> (result: Result<
    Vec<[u8; 32]>,
    Divergence,
>)
    ensures
        match range(source@, from as int, to as int) {
            Some(hashes) => result is Ok && result->Ok_0@ == hashes,
            None => result == Err::<Vec<[u8; 32]>, Divergence>(Divergence::NoKeyframe),
        },
{
    let (from, to) = (from as i128, to as i128);
    let mut start: usize = 0;
    while start < source.len() && !(source[start].key && -1 <= source[start].micros as i128 - from
        && source[start].micros as i128 - from <= 1)
        invariant
            start <= source@.len(),
            i64::MIN <= from <= i64::MAX,
            key_at(source@, from as int, 0) == key_at(source@, from as int, start as int),
        decreases source@.len() - start,
    {
        start += 1;
    }
    if start == source.len() {
        return Err(Divergence::NoKeyframe);
    }
    let mut end: usize = start + 1;
    while end < source.len() && !(source[end].key && source[end].micros as i128 >= to - 1)
        invariant
            start < end <= source@.len(),
            i64::MIN <= to <= i64::MAX,
            end_at(source@, to as int, start + 1) == end_at(source@, to as int, end as int),
        decreases source@.len() - end,
    {
        end += 1;
    }
    let mut hashes: Vec<[u8; 32]> = Vec::new();
    let ghost all = shown_within(source@, from as int, to as int, start as int, end as int);
    let mut i: usize = start;
    proof {
        assert(hashes@ + all =~= all);
    }
    while i < end
        invariant
            start <= i <= end <= source@.len(),
            i64::MIN <= from <= i64::MAX,
            i64::MIN <= to <= i64::MAX,
            all == hashes@ + shown_within(
                source@,
                from as int,
                to as int,
                i as int,
                end as int,
            ),
        decreases end - i,
    {
        let packet = &source[i];
        let ghost held = hashes@;
        let ghost rest = shown_within(source@, from as int, to as int, i + 1, end as int);
        if from - 1 <= packet.micros as i128 && (packet.micros as i128) < to - 1 {
            hashes.push(packet.sha256);
            proof {
                assert(held + (seq![packet.sha256] + rest) =~= hashes@ + rest);
            }
        }
        i += 1;
    }
    proof {
        assert(all =~= hashes@);
    }
    Ok(hashes)
}

/// The place of the first packet at `at` or behind with a hash; the number of
/// packets where there is none.
pub open spec fn hash_at(output: Seq<PacketHash>, hash: Seq<u8>, at: int) -> int
    decreases output.len() - at,
{
    if at >= output.len() || output[at].sha256@ == hash {
        at
    } else {
        hash_at(output, hash, at + 1)
    }
}

/// How a run of packets from `start` compares with what is expected, from its
/// `index`th packet on.
pub open spec fn compared(
    output: Seq<PacketHash>,
    expected: Seq<[u8; 32]>,
    start: int,
    index: int,
) -> Result<(), Divergence>
    decreases expected.len() - index,
{
    if index >= expected.len() {
        Ok(())
    } else if start + index >= output.len() {
        Err(Divergence::Short { missing: (expected.len() - index) as usize })
    } else if output[start + index].sha256@ != expected[index]@ {
        Err(Divergence::Differs { index: index as usize })
    } else {
        compared(output, expected, start, index + 1)
    }
}

/// What is expected stands in an output from `start` on, packet for packet.
pub open spec fn runs_at(output: Seq<PacketHash>, expected: Seq<[u8; 32]>, start: int) -> bool {
    &&& 0 <= start
    &&& start + expected.len() <= output.len()
    &&& forall|k: int|
        0 <= k < expected.len() ==> (#[trigger] output[start + k]).sha256@ == expected[k]@
}

/// Whether an output contains what is expected as one run, wherever it stands;
/// if not, how it diverges from where its first packet first stands.
pub open spec fn holds_run(output: Seq<PacketHash>, expected: Seq<[u8; 32]>) -> Result<
    (),
    Divergence,
> {
    if exists|start: int| runs_at(output, expected, start) {
        Ok(())
    } else {
        let start = hash_at(output, expected[0]@, 0);
        if start >= output.len() {
            Err(Divergence::Missing)
        } else {
            compared(output, expected, start, 0)
        }
    }
}

/// Whether two hashes are the same.
pub fn same_hash(a: &[u8; 32], b: &[u8; 32]) -> (same: bool)
    ensures
        same == (a@ == b@),
{
    let mut i: usize = 0;
    while i < 32
        invariant
            i <= 32,
            forall|k: int| 0 <= k < i ==> a@[k] == b@[k],
        decreases 32 - i,
    {
        if a[i] != b[i] {
            assert(a@[i as int] != b@[i as int]);
            return false;
        }
        i += 1;
    }
    proof {
        assert(a@ =~= b@);
    }
    true
}

/// Whether `output` contains `expected` as one contiguous run, packet for
/// packet, by the hash boundary. Otherwise where the run is not there: its
/// first packet missing, a packet that differs, or the output ending early.
pub fn contains(output: &[PacketHash], expected: &[[u8; 32]]) -> (result: Result<(), Divergence>)
    ensures
        result is Ok <==> exists|start: int| runs_at(output@, expected@, start),
        result == holds_run(output@, expected@),
{
    if expected.len() == 0 {
        assert(runs_at(output@, expected@, 0));
        return Ok(());
    }
    let mut first: Option<Divergence> = None;
    let mut start: usize = 0;
    while start < output.len()
        invariant
            start <= output@.len(),
            expected@.len() > 0,
            forall|s: int| 0 <= s < start ==> !runs_at(output@, expected@, s),
            match first {
                None => hash_at(output@, expected@[0]@, 0) == hash_at(
                    output@,
                    expected@[0]@,
                    start as int,
                ),
                Some(divergence) => {
                    &&& hash_at(output@, expected@[0]@, 0) < output@.len()
                    &&& compared(output@, expected@, hash_at(output@, expected@[0]@, 0), 0)
                        == Err::<(), Divergence>(divergence)
                },
            },
        decreases output@.len() - start,
    {
        if same_hash(&output[start].sha256, &expected[0]) {
            let found = compare_at(output, expected, start);
            proof {
                lemma_compared(output@, expected@, start as int, 0);
            }
            match found {
                Ok(()) => {
                    assert(runs_at(output@, expected@, start as int));
                    return Ok(());
                },
                Err(divergence) => {
                    if first.is_none() {
                        first = Some(divergence);
                    }
                },
            }
        } else {
            assert(output@[start + 0].sha256@ != expected@[0]@);
        }
        start += 1;
    }
    assert(forall|s: int| !runs_at(output@, expected@, s));
    match first {
        Some(divergence) => Err(divergence),
        None => Err(Divergence::Missing),
    }
}

/// How the packets from `start` on compare with what is expected.
fn compare_at(output: &[PacketHash], expected: &[[u8; 32]], start: usize) -> (result: Result<
    (),
    Divergence,
>)
    requires
        start <= output@.len(),
    ensures
        result == compared(output@, expected@, start as int, 0),
{
    let mut index: usize = 0;
    while index < expected.len()
        invariant
            index <= expected@.len(),
            start <= output@.len(),
            compared(output@, expected@, start as int, 0) == compared(
                output@,
                expected@,
                start as int,
                index as int,
            ),
        decreases expected@.len() - index,
    {
        if output.len() - start <= index {
            return Err(Divergence::Short { missing: expected.len() - index });
        }
        if !same_hash(&output[start + index].sha256, &expected[index]) {
            return Err(Divergence::Differs { index });
        }
        index += 1;
    }
    Ok(())
}

/// A comparison without a divergence is a run.
proof fn lemma_compared(
    output: Seq<PacketHash>,
    expected: Seq<[u8; 32]>,
    start: int,
    index: int,
)
    requires
        0 <= index <= expected.len(),
        0 <= start <= output.len(),
    ensures
        compared(output, expected, start, index) is Ok <==> {
            &&& index < expected.len() ==> start + expected.len() <= output.len()
            &&& forall|k: int|
                index <= k < expected.len() ==> (#[trigger] output[start + k]).sha256@
                    == expected[k]@
        },
        compared(output, expected, start, index) != Err::<(), Divergence>(Divergence::Missing),
    decreases expected.len() - index,
{
    if index < expected.len() {
        lemma_compared(output, expected, start, index + 1);
        assert(output[start + index].sha256@ == expected[index]@ || output[start + index].sha256@
            != expected[index]@);
    }
}

/// An output contains a range exactly where it holds it packet for packet, one
/// behind another; where it does not, the range's first packet stands nowhere,
/// or the packets behind the first place where it does differ or run out.
pub proof fn what_is_found_is_there(output: Seq<PacketHash>, expected: Seq<[u8; 32]>)
    ensures
        holds_run(output, expected) is Ok <==> exists|start: int| runs_at(output, expected, start),
        holds_run(output, expected) == Err::<(), Divergence>(Divergence::Missing) ==> forall|i: int|
            0 <= i < output.len() ==> (#[trigger] output[i]).sha256@ != expected[0]@,
{
    if forall|start: int| !runs_at(output, expected, start) {
        if expected.len() == 0 {
            assert(runs_at(output, expected, 0));
        }
        let start = hash_at(output, expected[0]@, 0);
        lemma_hash_at(output, expected[0]@, 0);
        if start < output.len() {
            lemma_compared(output, expected, start, 0);
            assert(!runs_at(output, expected, start));
        }
    }
}

/// A packet is found where it first is.
proof fn lemma_hash_at(output: Seq<PacketHash>, hash: Seq<u8>, at: int)
    requires
        0 <= at,
    ensures
        hash_at(output, hash, at) >= at,
        forall|i: int|
            at <= i < hash_at(output, hash, at) && i < output.len() ==> (
            #[trigger] output[i]).sha256@ != hash,
    decreases output.len() - at,
{
    if at < output.len() && output[at].sha256@ != hash {
        lemma_hash_at(output, hash, at + 1);
    }
}

} // verus!
