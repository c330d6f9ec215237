//! Writing a stream.
use super::fault::{Fault, NutError};
use super::number::{checksum, coded, coded_signed, coded_text, crc, put_s, put_string, put_v};
use super::read::{pow2, product, sum};
use super::{tags, ChapterModel, Class, Header, HeaderModel, Packet, PacketModel};
use super::{StreamHeader, StreamModel, Tag, INFO_STARTCODE, MAIN_STARTCODE, STREAM_STARTCODE};
use super::SYNCPOINT_STARTCODE;
use crate::bytes::{big_endian, push_all, push_big};
use crate::probe::Rational;
use vstd::prelude::*;

verus! {

/// Frame code for a non-keyframe: every field coded, lowest part of size zero.
pub const CODE_FRAME: u8 = 0;

/// Frame code for a keyframe.
pub const CODE_KEY: u8 = 129;

/// The flags of both: stream, timestamp, size and a header checksum, all coded.
pub const FRAME_FLAGS: u64 = 120;

/// What every stream opens with: `nut/multimedia container` and a null.
pub open spec fn id_string() -> Seq<u8> {
    seq![
        0x6e, 0x75, 0x74, 0x2f, 0x6d, 0x75, 0x6c, 0x74, 0x69, 0x6d, 0x65, 0x64, 0x69, 0x61, 0x20,
        0x63, 0x6f, 0x6e, 0x74, 0x61, 0x69, 0x6e, 0x65, 0x72, 0x00,
    ]
}

/// A number without its sign.
pub open spec fn magnitude(n: i64) -> int {
    if n < 0 {
        -n
    } else {
        n as int
    }
}

/// The terms of `bases`, as they stand in a main header.
pub open spec fn bases_bytes(bases: Seq<Rational>) -> Seq<u8>
    decreases bases.len(),
{
    if bases.len() == 0 {
        Seq::empty()
    } else {
        bases_bytes(bases.drop_last()) + (coded(magnitude(bases.last().num)) + coded(
            magnitude(bases.last().den),
        ))
    }
}

/// A run of the frame-code table.
pub open spec fn run_bytes(flags: int, count: int) -> Seq<u8> {
    coded(flags) + (coded(6) + (coded_signed(0) + (coded(1) + (coded(0) + (coded(0) + (coded(0)
        + coded(count)))))))
}

/// The main header's body: version 3, the time bases, and a frame-code table of
/// two runs. Codes 0 to 128 but the startcode byte are frames, and 129 to 255
/// keyframes; each run's first code has a size remainder of zero, which is the
/// only one that is written.
#[verifier::opaque]
pub open spec fn main_body(streams: int, bases: Seq<Rational>) -> Seq<u8> {
    coded(3) + (coded(streams) + (coded(65_536) + (coded(bases.len() as int) + (bases_bytes(bases)
        + (run_bytes(120, 128) + (run_bytes(121, 127) + coded(0)))))))
}

/// The number a kind of stream has.
pub open spec fn class_number(class: Class) -> int {
    match class {
        Class::Video => 0,
        Class::Audio => 1,
        Class::Subtitle => 2,
        Class::Data => 3,
    }
}

/// A list of numbers.
pub open spec fn numbers_bytes(numbers: Seq<u64>) -> Seq<u8>
    decreases numbers.len(),
{
    if numbers.len() == 0 {
        Seq::empty()
    } else {
        numbers_bytes(numbers.drop_last()) + coded(numbers.last() as int)
    }
}

/// A list of numbers, where there is one.
pub open spec fn shape_bytes(shape: Option<Seq<u64>>) -> Seq<u8> {
    match shape {
        Some(numbers) => numbers_bytes(numbers),
        None => Seq::empty(),
    }
}

/// Which stream a header is of, its kind and its codec tag.
pub open spec fn identity_bytes(id: int, stream: StreamModel) -> Seq<u8> {
    coded(id) + (coded(class_number(stream.class)) + (coded(stream.fourcc.len() as int)
        + stream.fourcc))
}

/// A stream header's timing: its time base by its place, and what follows.
pub open spec fn timing_bytes(stream: StreamModel, base: int) -> Seq<u8> {
    coded(base) + (coded(stream.msb_pts_shift as int) + (coded(stream.max_pts_distance as int) + (
    coded(stream.decode_delay as int) + coded(stream.flags as int))))
}

/// A stream header's codec configuration, and the numbers of its kind.
pub open spec fn config_bytes(stream: StreamModel) -> Seq<u8> {
    coded(stream.extradata.len() as int) + (stream.extradata + (shape_bytes(stream.video)
        + shape_bytes(stream.audio)))
}

/// One stream header's body.
#[verifier::opaque]
pub open spec fn stream_body(id: int, stream: StreamModel, base: int) -> Seq<u8> {
    identity_bytes(id, stream) + (timing_bytes(stream, base) + config_bytes(stream))
}

/// Names and values of an info packet.
pub open spec fn tags_bytes(list: Seq<Tag>) -> Seq<u8>
    decreases list.len(),
{
    if list.len() == 0 {
        Seq::empty()
    } else {
        tags_bytes(list.drop_last()) + (coded_text(list.last().0) + (coded_signed(-1) + coded_text(
            list.last().1,
        )))
    }
}

/// One info packet's body.
#[verifier::opaque]
pub open spec fn info_body(
    stream_plus_one: int,
    chapter: int,
    start: int,
    length: int,
    metadata: Seq<Tag>,
) -> Seq<u8> {
    coded(stream_plus_one) + (coded_signed(chapter) + (coded(start) + (coded(length) + (coded(
        metadata.len() as int,
    ) + tags_bytes(metadata)))))
}

/// The head of a packet: its startcode, how far it reaches, and a checksum
/// where that is far.
pub open spec fn packet_head(startcode: u64, length: int) -> Seq<u8> {
    let head = big_endian(startcode as int, 8) + coded(sum(length, 4));
    if sum(length, 4) > 4096 {
        head + big_endian(checksum(0, head) as int, 4)
    } else {
        head
    }
}

/// A packet.
#[verifier::opaque]
pub open spec fn packet_bytes(startcode: u64, body: Seq<u8>) -> Seq<u8> {
    packet_head(startcode, body.len() as int) + (body + big_endian(checksum(0, body) as int, 4))
}

/// `bases` with every one once, in the order they first come.
pub open spec fn gathered(bases: Seq<Rational>) -> Seq<Rational>
    decreases bases.len(),
{
    if bases.len() == 0 {
        Seq::empty()
    } else {
        let before = gathered(bases.drop_last());
        if before.contains(bases.last()) {
            before
        } else {
            before.push(bases.last())
        }
    }
}

/// Where `base` first stands in `bases`, and zero where it does not.
pub open spec fn base_index(bases: Seq<Rational>, base: Rational) -> int
    decreases bases.len(),
{
    if bases.contains(base) && bases[0] != base {
        1 + base_index(bases.skip(1), base)
    } else {
        0
    }
}

/// A header with every time base in lowest terms: the demuxer refuses any
/// other.
pub open spec fn normal(header: HeaderModel) -> HeaderModel {
    HeaderModel {
        streams: Seq::new(
            header.streams.len(),
            |i: int|
                StreamModel {
                    time_base: header.streams[i].time_base.lowest(),
                    ..header.streams[i]
                },
        ),
        metadata: header.metadata,
        chapters: Seq::new(
            header.chapters.len(),
            |i: int|
                ChapterModel {
                    time_base: header.chapters[i].time_base.lowest(),
                    ..header.chapters[i]
                },
        ),
    }
}

/// The time bases of a header: the streams', then the chapters'.
pub open spec fn all_bases(header: HeaderModel) -> Seq<Rational> {
    Seq::new(header.streams.len(), |i: int| header.streams[i].time_base) + Seq::new(
        header.chapters.len(),
        |i: int| header.chapters[i].time_base,
    )
}

/// The stream headers of the first `count` streams.
pub open spec fn stream_packets(streams: Seq<StreamModel>, bases: Seq<Rational>, count: int) -> Seq<
    u8,
>
    decreases count,
{
    if count <= 0 {
        Seq::empty()
    } else {
        stream_packets(streams, bases, count - 1) + packet_bytes(
            STREAM_STARTCODE,
            stream_body(
                count - 1,
                streams[count - 1],
                base_index(bases, streams[count - 1].time_base),
            ),
        )
    }
}

/// The info packets of the first `count` streams: one for each that has
/// metadata.
pub open spec fn stream_infos(streams: Seq<StreamModel>, count: int) -> Seq<u8>
    decreases count,
{
    if count <= 0 {
        Seq::empty()
    } else if streams[count - 1].metadata.len() == 0 {
        stream_infos(streams, count - 1)
    } else {
        stream_infos(streams, count - 1) + packet_bytes(
            INFO_STARTCODE,
            info_body(count, 0, 0, 0, streams[count - 1].metadata),
        )
    }
}

/// A chapter's start, together with its time base.
pub open spec fn chapter_start(chapter: ChapterModel, bases: Seq<Rational>) -> int {
    sum(product(chapter.start, bases.len() as u64), base_index(bases, chapter.time_base))
}

/// The info packets of the first `count` chapters.
pub open spec fn chapter_infos(chapters: Seq<ChapterModel>, bases: Seq<Rational>, count: int) -> Seq<
    u8,
>
    decreases count,
{
    if count <= 0 {
        Seq::empty()
    } else {
        chapter_infos(chapters, bases, count - 1) + packet_bytes(
            INFO_STARTCODE,
            info_body(
                0,
                count,
                chapter_start(chapters[count - 1], bases),
                chapters[count - 1].length as int,
                chapters[count - 1].metadata,
            ),
        )
    }
}

/// Everything before the first frame, of a header whose time bases are in
/// lowest terms.
pub open spec fn header_bytes(header: HeaderModel) -> Seq<u8> {
    let bases = gathered(all_bases(header));
    let n = header.streams.len() as int;
    id_string() + (packet_bytes(MAIN_STARTCODE, main_body(n, bases)) + (stream_packets(
        header.streams,
        bases,
        n,
    ) + (packet_bytes(INFO_STARTCODE, info_body(0, 0, 0, 0, header.metadata)) + (stream_infos(
        header.streams,
        n,
    ) + chapter_infos(header.chapters, bases, header.chapters.len() as int)))))
}

/// A syncpoint's body: the frame's time, and how far back the last syncpoint
/// is.
#[verifier::opaque]
pub open spec fn sync_body(pts: int, bases: Seq<Rational>, base: Rational, back: int) -> Seq<u8> {
    coded(sum(product(pts as u64, bases.len() as u64), base_index(bases, base))) + coded(back / 16)
}

/// A frame's header, its checksum not counted.
pub open spec fn frame_head(packet: PacketModel, shift: u64) -> Seq<u8> {
    seq![
        if packet.key {
            CODE_KEY
        } else {
            CODE_FRAME
        },
    ] + (coded(packet.stream) + (coded(sum(packet.pts as int, pow2(shift))) + coded(
        packet.data.len() as int,
    )))
}

/// A frame: its header, the header's checksum, and its data.
#[verifier::opaque]
pub open spec fn frame_bytes(packet: PacketModel, shift: u64) -> Seq<u8> {
    let head = frame_head(packet, shift);
    head + (big_endian(checksum(0, head) as int, 4) + packet.data)
}

/// Append the time bases of a main header.
fn put_bases(out: &mut Vec<u8>, bases: &Vec<Rational>)
    ensures
        final(out)@ == old(out)@ + bases_bytes(bases@),
{
    let ghost start = out@;
    let mut i: usize = 0;
    assert(bases@.take(0).len() == 0);
    assert(out@ =~= start + bases_bytes(bases@.take(0)));
    while i < bases.len()
        invariant
            i <= bases.len(),
            out@ == start + bases_bytes(bases@.take(i as int)),
        decreases bases.len() - i,
    {
        let ghost before = bases_bytes(bases@.take(i as int));
        assert(bases@.take(i + 1).drop_last() =~= bases@.take(i as int));
        put_v(out, absolute(bases[i].num));
        put_v(out, absolute(bases[i].den));
        assert(out@ =~= start + (before + (coded(magnitude(bases@[i as int].num)) + coded(
            magnitude(bases@[i as int].den),
        ))));
        i = i + 1;
    }
    assert(bases@.take(i as int) =~= bases@);
}

/// A number without its sign.
fn absolute(n: i64) -> (m: u64)
    ensures
        m == magnitude(n),
{
    if n < 0 {
        (-(n as i128)) as u64
    } else {
        n as u64
    }
}

/// Append a run of the frame-code table.
fn put_run(out: &mut Vec<u8>, flags: u64, count: u64)
    ensures
        final(out)@ == old(out)@ + run_bytes(flags as int, count as int),
{
    let ghost start = out@;
    put_v(out, flags);
    put_v(out, 6);
    put_s(out, 0);
    put_v(out, 1);
    put_v(out, 0);
    put_v(out, 0);
    put_v(out, 0);
    put_v(out, count);
    assert(out@ =~= start + run_bytes(flags as int, count as int));
}

/// The main header's body.
fn main_header(streams: usize, bases: &Vec<Rational>) -> (main: Vec<u8>)
    ensures
        main@ == main_body(streams as int, bases@),
{
    let mut main: Vec<u8> = Vec::new();
    put_v(&mut main, 3);
    put_v(&mut main, streams as u64);
    put_v(&mut main, 65_536);
    put_v(&mut main, bases.len() as u64);
    put_bases(&mut main, bases);
    put_run(&mut main, FRAME_FLAGS, 128);
    put_run(&mut main, FRAME_FLAGS + 1, 127);
    put_v(&mut main, 0);
    proof {
        reveal(main_body);
    }
    assert(main@ =~= main_body(streams as int, bases@));
    main
}

/// Append a list of numbers.
fn put_numbers(out: &mut Vec<u8>, numbers: &[u64])
    ensures
        final(out)@ == old(out)@ + numbers_bytes(numbers@),
{
    let ghost start = out@;
    let mut i: usize = 0;
    assert(numbers@.take(0).len() == 0);
    assert(out@ =~= start + numbers_bytes(numbers@.take(0)));
    while i < numbers.len()
        invariant
            i <= numbers.len(),
            out@ == start + numbers_bytes(numbers@.take(i as int)),
        decreases numbers.len() - i,
    {
        let ghost before = numbers_bytes(numbers@.take(i as int));
        assert(numbers@.take(i + 1).drop_last() =~= numbers@.take(i as int));
        put_v(out, numbers[i]);
        assert(out@ =~= start + (before + coded(numbers@[i as int] as int)));
        i = i + 1;
    }
    assert(numbers@.take(i as int) =~= numbers@);
}

/// Append which stream a header is of.
fn put_identity(out: &mut Vec<u8>, id: usize, stream: &StreamHeader)
    ensures
        final(out)@ == old(out)@ + identity_bytes(id as int, stream@),
{
    let ghost start = out@;
    put_v(out, id as u64);
    put_v(
        out,
        match stream.class {
            Class::Video => 0,
            Class::Audio => 1,
            Class::Subtitle => 2,
            Class::Data => 3,
        },
    );
    put_v(out, stream.fourcc.len() as u64);
    push_all(out, &stream.fourcc);
    assert(out@ =~= start + identity_bytes(id as int, stream@));
}

/// Append a stream header's timing.
fn put_timing(out: &mut Vec<u8>, stream: &StreamHeader, base: u64)
    ensures
        final(out)@ == old(out)@ + timing_bytes(stream@, base as int),
{
    let ghost start = out@;
    put_v(out, base);
    put_v(out, stream.msb_pts_shift);
    put_v(out, stream.max_pts_distance);
    put_v(out, stream.decode_delay);
    put_v(out, stream.flags);
    assert(out@ =~= start + timing_bytes(stream@, base as int));
}

/// Append a stream header's codec configuration.
fn put_config(out: &mut Vec<u8>, stream: &StreamHeader)
    ensures
        final(out)@ == old(out)@ + config_bytes(stream@),
{
    let ghost start = out@;
    put_v(out, stream.extradata.len() as u64);
    push_all(out, &stream.extradata);
    if let Some(shape) = &stream.video {
        put_numbers(out, shape);
    }
    if let Some(shape) = &stream.audio {
        put_numbers(out, shape);
    }
    assert(out@ =~= start + config_bytes(stream@));
}

/// One stream header's body.
fn stream_header(id: usize, stream: &StreamHeader, base: u64) -> (body: Vec<u8>)
    ensures
        body@ == stream_body(id as int, stream@, base as int),
{
    let mut body: Vec<u8> = Vec::new();
    put_identity(&mut body, id, stream);
    put_timing(&mut body, stream, base);
    put_config(&mut body, stream);
    proof {
        reveal(stream_body);
    }
    assert(body@ =~= stream_body(id as int, stream@, base as int));
    body
}

/// One info packet's body.
fn info(
    stream_plus_one: u64,
    chapter: i64,
    start: u64,
    length: u64,
    metadata: &Vec<(String, String)>,
) -> (body: Vec<u8>)
    requires
        chapter > i64::MIN,
    ensures
        body@ == info_body(
            stream_plus_one as int,
            chapter as int,
            start as int,
            length as int,
            tags(metadata@),
        ),
{
    let mut body: Vec<u8> = Vec::new();
    put_v(&mut body, stream_plus_one);
    put_s(&mut body, chapter);
    put_v(&mut body, start);
    put_v(&mut body, length);
    put_v(&mut body, metadata.len() as u64);
    let ghost head = body@;
    let ghost all = tags(metadata@);
    let mut i: usize = 0;
    assert(all.take(0).len() == 0);
    assert(body@ =~= head + tags_bytes(all.take(0)));
    while i < metadata.len()
        invariant
            i <= metadata.len(),
            all == tags(metadata@),
            body@ == head + tags_bytes(all.take(i as int)),
        decreases metadata.len() - i,
    {
        let ghost before = tags_bytes(all.take(i as int));
        assert(all.take(i + 1).drop_last() =~= all.take(i as int));
        put_string(&mut body, metadata[i].0.as_str());
        put_s(&mut body, -1);
        put_string(&mut body, metadata[i].1.as_str());
        assert(body@ =~= head + (before + (coded_text(all[i as int].0) + (coded_signed(-1)
            + coded_text(all[i as int].1)))));
        i = i + 1;
    }
    assert(all.take(i as int) =~= all);
    proof {
        reveal(info_body);
    }
    assert(body@ =~= info_body(
        stream_plus_one as int,
        chapter as int,
        start as int,
        length as int,
        all,
    ));
    body
}

/// `2` to the power of `shift`.
fn power(shift: u64) -> (full: u64)
    requires
        shift < 64,
    ensures
        full == pow2(shift),
{
    let mut full: u64 = 1;
    let mut i: u64 = 0;
    while i < shift
        invariant
            i <= shift < 64,
            full == pow2(i),
        decreases shift - i,
    {
        proof {
            lemma_pow2(i + 1, 63);
        }
        full = full * 2;
        i = i + 1;
    }
    full
}

/// Powers of two grow.
proof fn lemma_pow2(a: int, b: int)
    requires
        0 <= a <= b <= 63,
    ensures
        1 <= pow2(a as u64) <= pow2(b as u64),
        pow2(63) == 0x8000_0000_0000_0000,
    decreases b - a,
{
    reveal_with_fuel(pow2, 64);
    assert(pow2(63) == 0x8000_0000_0000_0000);
    lemma_pow2_grows(a as u64, b as u64);
}

proof fn lemma_pow2_grows(a: u64, b: u64)
    requires
        a <= b,
    ensures
        1 <= pow2(a) <= pow2(b),
    decreases b,
{
    if a < b {
        lemma_pow2_grows(a, (b - 1) as u64);
    } else if a > 0 {
        lemma_pow2_grows((a - 1) as u64, (a - 1) as u64);
    }
}

/// Where `base` first stands in `bases`, and zero where it does not.
fn index_of_base(bases: &Vec<Rational>, base: Rational) -> (index: u64)
    ensures
        index == base_index(bases@, base),
        bases@.contains(base) ==> index < bases@.len() && bases@[index as int] == base,
{
    let mut i: usize = 0;
    while i < bases.len()
        invariant
            i <= bases.len(),
            forall|j: int| 0 <= j < i ==> bases@[j] != base,
        decreases bases.len() - i,
    {
        if bases[i] == base {
            proof {
                lemma_base_index_is(bases@, base, i as int);
            }
            return i as u64;
        }
        i = i + 1;
    }
    0
}

/// `base_index` is the first place of a base.
pub proof fn lemma_base_index_is(bases: Seq<Rational>, base: Rational, i: int)
    requires
        0 <= i < bases.len(),
        bases[i] == base,
        forall|j: int| 0 <= j < i ==> bases[j] != base,
    ensures
        base_index(bases, base) == i,
    decreases i,
{
    assert(bases.contains(base));
    if i > 0 {
        assert(bases[0] != base);
        let rest = bases.skip(1);
        assert(rest[i - 1] == base);
        lemma_base_index_is(rest, base, i - 1);
    }
}

/// A base's place is where it stands.
pub proof fn lemma_base_index(bases: Seq<Rational>, base: Rational)
    requires
        bases.contains(base),
    ensures
        0 <= base_index(bases, base) < bases.len(),
        bases[base_index(bases, base)] == base,
    decreases bases.len(),
{
    if bases[0] != base {
        let rest = bases.skip(1);
        let i = choose|i: int| 0 <= i < bases.len() && bases[i] == base;
        assert(rest[i - 1] == base);
        lemma_base_index(rest, base);
    }
}

/// What the writer keeps of a stream.
#[derive(Debug, Clone, Copy, PartialEq, Eq, Structural)]
pub struct Lane {
    pub msb_pts_shift: u64,
    pub time_base: Rational,
}

/// Writes a NUT stream the FFmpeg demuxer reads.
#[derive(Debug)]
pub struct Writer {
    pub output: Vec<u8>,
    pub streams: Vec<Lane>,
    pub time_bases: Vec<Rational>,
    /// Bytes written so far, for the syncpoints' back pointers.
    pub written: u64,
    pub last_syncpoint: u64,
}

/// What the writer keeps of the streams of a header.
pub open spec fn lanes(header: HeaderModel) -> Seq<Lane> {
    Seq::new(
        header.streams.len(),
        |i: int|
            Lane {
                msb_pts_shift: header.streams[i].msb_pts_shift,
                time_base: header.streams[i].time_base.lowest(),
            },
    )
}

/// Put `base` among `bases` where it is not there yet.
fn gather(bases: &mut Vec<Rational>, base: Rational)
    ensures
        final(bases)@ == (if old(bases)@.contains(base) {
            old(bases)@
        } else {
            old(bases)@.push(base)
        }),
{
    let mut i: usize = 0;
    while i < bases.len()
        invariant
            i <= bases.len(),
            bases@ == old(bases)@,
            forall|j: int| 0 <= j < i ==> bases@[j] != base,
        decreases bases.len() - i,
    {
        if bases[i] == base {
            return;
        }
        i = i + 1;
    }
    bases.push(base);
}

/// The time bases of a header in lowest terms, every one once.
fn gather_all(header: &Header) -> (bases: Vec<Rational>)
    ensures
        bases@ == gathered(all_bases(normal(header@))),
{
    let ghost model = normal(header@);
    let ghost all = all_bases(model);
    let ghost streams = header.streams@.len() as int;
    let mut bases: Vec<Rational> = Vec::new();
    let mut i: usize = 0;
    assert(all.take(0).len() == 0);
    while i < header.streams.len()
        invariant
            i <= header.streams.len(),
            model == normal(header@),
            all == all_bases(model),
            bases@ == gathered(all.take(i as int)),
        decreases header.streams.len() - i,
    {
        let base: Rational = header.streams[i].time_base.reduced();
        assert(all.take(i + 1).drop_last() =~= all.take(i as int));
        assert(header@.streams[i as int].time_base == header.streams@[i as int].time_base);
        assert(all[i as int] == base);
        gather(&mut bases, base);
        i = i + 1;
    }
    let mut k: usize = 0;
    while k < header.chapters.len()
        invariant
            k <= header.chapters.len(),
            streams == header.streams@.len(),
            model == normal(header@),
            all == all_bases(model),
            bases@ == gathered(all.take(streams + k)),
        decreases header.chapters.len() - k,
    {
        let base: Rational = header.chapters[k].time_base.reduced();
        assert(all.take(streams + k + 1).drop_last() =~= all.take(streams + k));
        assert(header@.chapters[k as int].time_base == header.chapters@[k as int].time_base);
        assert(all[streams + k] == base);
        gather(&mut bases, base);
        k = k + 1;
    }
    assert(all.take(streams + k) =~= all);
    bases
}

/// What the writer keeps of the streams of a header.
fn lanes_of(header: &Header) -> (streams: Vec<Lane>)
    ensures
        streams@ == lanes(header@),
{
    let ghost all = lanes(header@);
    let mut streams: Vec<Lane> = Vec::new();
    let mut i: usize = 0;
    while i < header.streams.len()
        invariant
            i <= header.streams.len(),
            all == lanes(header@),
            streams@ == all.take(i as int),
        decreases header.streams.len() - i,
    {
        streams.push(
            Lane {
                msb_pts_shift: header.streams[i].msb_pts_shift,
                time_base: header.streams[i].time_base.reduced(),
            },
        );
        assert(header@.streams[i as int] == header.streams@[i as int]@);
        assert(all.take(i + 1) =~= all.take(i as int).push(all[i as int]));
        i = i + 1;
    }
    assert(all.take(i as int) =~= all);
    streams
}

/// Everything before the first frame.
fn header_out(header: &Header, time_bases: &Vec<Rational>) -> (bytes: Vec<u8>)
    requires
        header.chapters@.len() < i64::MAX,
        time_bases@ == gathered(all_bases(normal(header@))),
    ensures
        bytes@ == header_bytes(normal(header@)),
{
    let mut bytes: Vec<u8> = Vec::new();
    put_id(&mut bytes);
    let main: Vec<u8> = main_header(header.streams.len(), time_bases);
    put_packet(&mut bytes, MAIN_STARTCODE, &main);
    put_streams(&mut bytes, header, time_bases);
    let body: Vec<u8> = info(0, 0, 0, 0, &header.metadata);
    put_packet(&mut bytes, INFO_STARTCODE, &body);
    put_stream_infos(&mut bytes, header);
    put_chapter_infos(&mut bytes, header, time_bases);
    proof {
        let model = normal(header@);
        let bases = time_bases@;
        let n = header.streams@.len() as int;
        let a = id_string();
        let b = packet_bytes(MAIN_STARTCODE, main_body(n, bases));
        let c = stream_packets(model.streams, bases, n);
        let d = packet_bytes(INFO_STARTCODE, info_body(0, 0, 0, 0, model.metadata));
        let e = stream_infos(model.streams, n);
        let f = chapter_infos(model.chapters, bases, model.chapters.len() as int);
        assert(bytes@ =~= a + (b + (c + (d + (e + f)))));
    }
    bytes
}

impl Writer {
    /// Append bytes to the output.
    fn raw(&mut self, bytes: &[u8])
        ensures
            final(self).output@ == old(self).output@ + bytes@,
            final(self).written == sum(old(self).written as int, bytes@.len() as int),
            final(self).streams == old(self).streams,
            final(self).time_bases == old(self).time_bases,
            final(self).last_syncpoint == old(self).last_syncpoint,
    {
        push_all(&mut self.output, bytes);
        self.written = self.written.saturating_add(bytes.len() as u64);
    }

    /// Write the headers of `header`, every time base in lowest terms. A stream
    /// of packets needs at least one stream.
    pub fn new(output: Vec<u8>, header: &Header) -> (writer: Result<Writer, NutError>)
        requires
            header.chapters@.len() < i64::MAX,
        ensures
            match writer {
                Ok(writer) => {
                    let bytes = header_bytes(normal(header@));
                    &&& header.streams@.len() > 0
                    &&& writer.output@ == output@ + bytes
                    &&& writer.written == sum(0, bytes.len() as int)
                    &&& writer.last_syncpoint == 0
                    &&& writer.streams@ == lanes(header@)
                    &&& writer.time_bases@ == gathered(all_bases(normal(header@)))
                },
                Err(error) => header.streams@.len() == 0 && error == NutError::Malformed(
                    Fault::NeedsAStream,
                ),
            },
    {
        if header.streams.len() == 0 {
            return Err(NutError::Malformed(Fault::NeedsAStream));
        }
        let time_bases: Vec<Rational> = gather_all(header);
        let bytes: Vec<u8> = header_out(header, &time_bases);
        let streams: Vec<Lane> = lanes_of(header);
        let mut writer = Writer {
            output,
            streams,
            time_bases,
            written: 0,
            last_syncpoint: 0,
        };
        writer.raw(&bytes);
        Ok(writer)
    }

    /// Write one packet. Its stream must exist, and its timestamp must not be
    /// negative: NUT cannot carry one.
    pub fn write(&mut self, packet: &Packet) -> (done: Result<(), NutError>)
        requires
            packet.stream < old(self).streams@.len() ==> old(
                self,
            ).streams@[packet.stream as int].msb_pts_shift < 64,
            old(self).last_syncpoint <= old(self).written,
        ensures
            final(self).streams == old(self).streams,
            final(self).time_bases == old(self).time_bases,
            final(self).last_syncpoint <= final(self).written,
            match done {
                Ok(_) => {
                    let lane = old(self).streams@[packet.stream as int];
                    let bytes = packet_bytes(
                        SYNCPOINT_STARTCODE,
                        sync_body(
                            packet.pts as int,
                            old(self).time_bases@,
                            lane.time_base,
                            old(self).written - old(self).last_syncpoint,
                        ),
                    ) + frame_bytes(packet@, lane.msb_pts_shift);
                    &&& packet.stream < old(self).streams@.len() && packet.pts >= 0
                    &&& final(self).output@ == old(self).output@ + bytes
                    &&& final(self).written == sum(old(self).written as int, bytes.len() as int)
                    &&& final(self).last_syncpoint == old(self).written
                },
                Err(error) => {
                    &&& *final(self) == *old(self)
                    &&& error == NutError::Malformed(
                        if packet.stream >= old(self).streams@.len() {
                            Fault::NoStream(packet.stream)
                        } else {
                            Fault::NegativeTimestamp(packet.pts)
                        },
                    )
                    &&& packet.stream >= old(self).streams@.len() || packet.pts < 0
                },
            },
    {
        if packet.stream >= self.streams.len() {
            return Err(NutError::Malformed(Fault::NoStream(packet.stream)));
        }
        if packet.pts < 0 {
            return Err(NutError::Malformed(Fault::NegativeTimestamp(packet.pts)));
        }
        let lane: Lane = self.streams[packet.stream];
        let pts: u64 = packet.pts as u64;
        let count: u64 = self.time_bases.len() as u64;
        let scaled: u64 = match pts.checked_mul(count) {
            Some(scaled) => scaled,
            None => u64::MAX,
        };
        let mut sync: Vec<u8> = Vec::new();
        put_v(&mut sync, scaled.saturating_add(index_of_base(&self.time_bases, lane.time_base)));
        put_v(&mut sync, (self.written - self.last_syncpoint) / 16);
        proof {
            reveal(sync_body);
            reveal(frame_bytes);
        }
        assert(sync@ =~= sync_body(
            packet.pts as int,
            self.time_bases@,
            lane.time_base,
            self.written - self.last_syncpoint,
        ));
        let mut bytes: Vec<u8> = Vec::new();
        put_packet(&mut bytes, SYNCPOINT_STARTCODE, &sync);
        let ghost first = bytes@;
        let mut head: Vec<u8> = Vec::new();
        head.push(
            if packet.key {
                CODE_KEY
            } else {
                CODE_FRAME
            },
        );
        put_v(&mut head, packet.stream as u64);
        put_v(&mut head, pts.saturating_add(power(lane.msb_pts_shift)));
        put_v(&mut head, packet.data.len() as u64);
        assert(head@ =~= frame_head(packet@, lane.msb_pts_shift));
        let check: u32 = crc(0, &head);
        push_all(&mut bytes, &head);
        push_big(&mut bytes, check as u64, 4);
        push_all(&mut bytes, &packet.data);
        assert(bytes@ =~= first + frame_bytes(packet@, lane.msb_pts_shift));
        assert(first =~= packet_bytes(SYNCPOINT_STARTCODE, sync@));
        self.last_syncpoint = self.written;
        self.raw(&bytes);
        Ok(())
    }

    /// Hand over what has been written and not handed over yet.
    pub fn take(&mut self) -> (bytes: Vec<u8>)
        ensures
            bytes@ == old(self).output@,
            final(self).output@.len() == 0,
            final(self).streams == old(self).streams,
            final(self).time_bases == old(self).time_bases,
            final(self).written == old(self).written,
            final(self).last_syncpoint == old(self).last_syncpoint,
    {
        let mut bytes: Vec<u8> = Vec::new();
        bytes.append(&mut self.output);
        assert(bytes@ =~= old(self).output@);
        bytes
    }

    /// Hand back the output.
    pub fn finish(self) -> (output: Vec<u8>)
        ensures
            output@ == self.output@,
    {
        self.output
    }
}

/// Append what every stream opens with.
fn put_id(out: &mut Vec<u8>)
    ensures
        final(out)@ == old(out)@ + id_string(),
{
    let id: [u8; 25] = [
        0x6e, 0x75, 0x74, 0x2f, 0x6d, 0x75, 0x6c, 0x74, 0x69, 0x6d, 0x65, 0x64, 0x69, 0x61, 0x20,
        0x63, 0x6f, 0x6e, 0x74, 0x61, 0x69, 0x6e, 0x65, 0x72, 0x00,
    ];
    assert(id@ =~= id_string());
    push_all(out, &id);
}

/// Append a packet.
fn put_packet(out: &mut Vec<u8>, startcode: u64, body: &[u8])
    ensures
        final(out)@ == old(out)@ + packet_bytes(startcode, body@),
{
    let mut packet: Vec<u8> = Vec::new();
    push_big(&mut packet, startcode, 8);
    let forward: u64 = (body.len() as u64).saturating_add(4);
    put_v(&mut packet, forward);
    let ghost head = packet@;
    assert(head =~= big_endian(startcode as int, 8) + coded(sum(body@.len() as int, 4)));
    if forward > 4096 {
        let check: u32 = crc(0, &packet);
        push_big(&mut packet, check as u64, 4);
    }
    assert(packet@ == packet_head(startcode, body@.len() as int));
    push_all(&mut packet, body);
    let check: u32 = crc(0, body);
    push_big(&mut packet, check as u64, 4);
    proof {
        reveal(packet_bytes);
    }
    assert(packet@ =~= packet_bytes(startcode, body@));
    push_all(out, &packet);
}

/// Append the stream headers.
fn put_streams(out: &mut Vec<u8>, header: &Header, bases: &Vec<Rational>)
    ensures
        final(out)@ == old(out)@ + stream_packets(
            normal(header@).streams,
            bases@,
            header.streams@.len() as int,
        ),
{
    let ghost start = out@;
    let ghost streams = normal(header@).streams;
    let mut i: usize = 0;
    assert(out@ =~= start + stream_packets(streams, bases@, 0));
    while i < header.streams.len()
        invariant
            i <= header.streams.len(),
            streams == normal(header@).streams,
            out@ == start + stream_packets(streams, bases@, i as int),
        decreases header.streams.len() - i,
    {
        let ghost before = stream_packets(streams, bases@, i as int);
        let base: Rational = header.streams[i].time_base.reduced();
        let index: u64 = index_of_base(bases, base);
        let body: Vec<u8> = stream_header(i, &header.streams[i], index);
        assert(header@.streams[i as int] == header.streams@[i as int]@);
        // A body names its time base by its place only.
        proof {
            reveal(stream_body);
        }
        assert(body@ == stream_body(i as int, streams[i as int], index as int));
        put_packet(out, STREAM_STARTCODE, &body);
        assert(out@ =~= start + (before + packet_bytes(STREAM_STARTCODE, body@)));
        i = i + 1;
    }
}

/// Append the streams' info packets.
fn put_stream_infos(out: &mut Vec<u8>, header: &Header)
    ensures
        final(out)@ == old(out)@ + stream_infos(
            normal(header@).streams,
            header.streams@.len() as int,
        ),
{
    let ghost start = out@;
    let ghost streams = normal(header@).streams;
    let mut i: usize = 0;
    assert(out@ =~= start + stream_infos(streams, 0));
    while i < header.streams.len()
        invariant
            i <= header.streams.len(),
            streams == normal(header@).streams,
            out@ == start + stream_infos(streams, i as int),
        decreases header.streams.len() - i,
    {
        let ghost before = stream_infos(streams, i as int);
        assert(header@.streams[i as int] == header.streams@[i as int]@);
        assert(streams[i as int].metadata == tags(header.streams@[i as int].metadata@));
        if header.streams[i].metadata.len() > 0 {
            let body: Vec<u8> = info(i as u64 + 1, 0, 0, 0, &header.streams[i].metadata);
            put_packet(out, INFO_STARTCODE, &body);
            assert(out@ =~= start + (before + packet_bytes(INFO_STARTCODE, body@)));
        }
        i = i + 1;
    }
}

/// Append the chapters' info packets.
fn put_chapter_infos(out: &mut Vec<u8>, header: &Header, bases: &Vec<Rational>)
    requires
        header.chapters@.len() < i64::MAX,
    ensures
        final(out)@ == old(out)@ + chapter_infos(
            normal(header@).chapters,
            bases@,
            header.chapters@.len() as int,
        ),
{
    let ghost start = out@;
    let ghost chapters = normal(header@).chapters;
    let mut i: usize = 0;
    assert(out@ =~= start + chapter_infos(chapters, bases@, 0));
    while i < header.chapters.len()
        invariant
            i <= header.chapters.len(),
            header.chapters@.len() < i64::MAX,
            chapters == normal(header@).chapters,
            out@ == start + chapter_infos(chapters, bases@, i as int),
        decreases header.chapters.len() - i,
    {
        let ghost before = chapter_infos(chapters, bases@, i as int);
        assert(header@.chapters[i as int] == header.chapters@[i as int]@);
        let base: Rational = header.chapters[i].time_base.reduced();
        let scaled: u64 = match header.chapters[i].start.checked_mul(bases.len() as u64) {
            Some(scaled) => scaled,
            None => u64::MAX,
        };
        let at: u64 = scaled.saturating_add(index_of_base(bases, base));
        assert(at == chapter_start(chapters[i as int], bases@));
        let body: Vec<u8> = info(
            0,
            i as i64 + 1,
            at,
            header.chapters[i].length,
            &header.chapters[i].metadata,
        );
        put_packet(out, INFO_STARTCODE, &body);
        assert(out@ =~= start + (before + packet_bytes(INFO_STARTCODE, body@)));
        i = i + 1;
    }
}

} // verus!
