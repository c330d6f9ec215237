//! What the format's bytes say, apart from who writes and who reads them.
use crate::bytes::big_endian;
use crate::export::nut::number::{checksum, coded, coded_signed, crc_byte};
use crate::export::nut::read::{frame_at, head_at, pow2, pts_of, sizes_at, synced, ReadingModel};
use crate::export::nut::table::{after_run, filled, Run};
use crate::export::nut::write::{frame_bytes, packet_bytes, sync_body};
use crate::export::nut::{
    flagged, Fault, FrameCode, PacketModel, FLAG_CHECKSUM,
};
use crate::num::clamped;
use crate::probe::Rational;
use crate::time::a_conversion_keeps_the_time;
use vstd::prelude::*;

verus! {

/// A number is written seven bits a byte, the highest first, every byte but the
/// last marked: a smaller one stands as it is, and a larger one as what is left
/// of it, marked, before its lowest seven bits.
pub proof fn a_number_is_written_highest_bits_first(n: nat)
    ensures
        n < 128 ==> coded(n as int) == seq![n as u8],
        n >= 128 ==> ({
            let rest = coded(n as int / 128);
            coded(n as int) == rest.drop_last().push((rest.last() + 128) as u8).push(
                (n % 128) as u8,
            )
        }),
{
    if n >= 128 {
        let m = n as int / 128;
        let rest = coded(m);
        let lead = crate::export::nut::number::lead(m);
        assert(rest.drop_last() =~= crate::export::nut::number::lead(m / 128));
        assert(rest.last() == (m % 128) as u8);
    } else {
        assert(crate::export::nut::number::lead(0).len() == 0);
        assert(coded(n as int) =~= seq![n as u8]);
    }
}

/// A signed number alternates: none, one, minus one, two, minus two.
pub proof fn a_signed_number_alternates(n: nat)
    ensures
        n > 0 ==> coded_signed(n as int) == coded(2 * n - 1),
        coded_signed(-(n as int)) == coded(2 * n as int),
{
}

/// A timestamp of few bits is the one nearest to the last that ends in them; one
/// of all bits stands above their range.
pub proof fn a_short_timestamp_is_the_nearest(short: u64, shift: u64, last: i64)
    requires
        shift < 16,
        -0x4000_0000_0000_0000 < last < 0x4000_0000_0000_0000,
    ensures
        ({
            let full = pow2(shift);
            let pts = pts_of(short, shift, last);
            &&& short < full ==> (pts - short) % full == 0 && -full < 2 * (pts - last) <= full
            &&& full <= short <= i64::MAX ==> pts == short - full
        }),
{
    lemma_pow2(shift);
    let full = pow2(shift);
    if short < full {
        let low = last - (full - 1) / 2;
        let x = short - low;
        vstd::arithmetic::div_mod::lemma_mod_bound(x, full);
        vstd::arithmetic::div_mod::lemma_fundamental_div_mod(x, full);
        let pts = x % full + low;
        let q = x / full;
        assert(pts - short == -(full * q)) by {
            assert(x == full * q + x % full);
        }
        assert(-(full * q) == full * (-q)) by (nonlinear_arith);
        vstd::arithmetic::div_mod::lemma_mod_multiples_basic(-q, full);
        assert((-q) * full == full * (-q)) by (nonlinear_arith);
    }
}

proof fn lemma_pow2(shift: u64)
    requires
        shift < 16,
    ensures
        1 <= pow2(shift) <= 32768,
        shift == 0 ==> pow2(shift) == 1,
{
    reveal_with_fuel(pow2, 17);
}

/// A packet is a frame's own: the stream and the time that its head says, the
/// bytes that are left off its front and those that stand behind its head,
/// together as many as its head says, and a keyframe by its flag.
pub proof fn a_frame_is_what_its_head_says(
    reading: ReadingModel,
    last: Seq<i64>,
    s: Seq<u8>,
    at: int,
)
    ensures
        frame_at(reading, last, s, at) matches Ok((packet, end)) ==> (head_at(
            reading,
            last,
            s,
            at,
        ) matches Ok((head, next)) && {
            let front = reading.main.elision[head.header_idx as int];
            let start = if flagged(head.flags, FLAG_CHECKSUM) {
                next + 4
            } else {
                next
            };
            &&& packet.stream == head.stream && packet.pts == head.pts
            &&& packet.key <==> head.flags & 1 != 0
            &&& end <= s.len() && packet.data == front + s.subrange(start, end)
            &&& next <= s.len() && 0 <= start <= end ==> packet.data.len() == head.size
            &&& flagged(head.flags, FLAG_CHECKSUM) ==> checksum(0, s.subrange(at, start)) == 0
        }),
{
}

/// A frame's size is so many of its code's units and what its code adds.
pub proof fn a_frame_is_as_long_as_it_says(
    s: Seq<u8>,
    at: int,
    code: FrameCode,
    flags: u64,
    stream: u64,
    pts: i64,
)
    ensures
        sizes_at(s, at, code, flags, stream, pts) matches Ok((head, _)) ==> {
            &&& head.flags == flags && head.stream == stream && head.pts == pts
            &&& flags & 256 == 0
            &&& flags & 32 == 0 ==> head.size == code.size_lsb
            &&& flags & 32 != 0 ==> (crate::export::nut::number::v_at(
                s,
                at,
                Fault::EndsInNumber,
            ) matches Ok((high, _)) && (code.size_lsb + code.size_mul * high <= u64::MAX
                ==> head.size == code.size_lsb + code.size_mul * high))
        },
{
    reveal(sizes_at);
    if flags & 32 != 0 {
        if let Ok((high, _)) = crate::export::nut::number::v_at(s, at, Fault::EndsInNumber) {
            assert(code.size_mul * high >= 0) by (nonlinear_arith)
                requires
                    code.size_mul >= 0,
                    high >= 0,
            ;
        }
    }
}

/// A run of codes numbers its sizes one by one; the letter N is none of them.
pub proof fn a_run_numbers_its_sizes(codes: Seq<FrameCode>, i: int, run: Run, k: int)
    requires
        codes.len() == 256,
        0 <= i < 256,
        run.count >= 1,
        after_run(i, run.count as int) <= 256,
        run.size + run.count - 1 <= u64::MAX,
        0 <= k < 256,
    ensures
        ({
            let after = filled(codes, i, run);
            let n = if i <= 78 && k > 78 {
                k - i - 1
            } else {
                k - i
            };
            &&& k == 78 && i <= 78 && i + run.count > 78 ==> flagged(after[k].flags, 8192)
            &&& k != 78 && 0 <= n < run.count && k >= i ==> after[k].size_lsb == run.size + n
                && after[k].flags == run.flags && after[k].stream == run.stream
                && after[k].size_mul == run.mul && after[k].pts_delta == run.pts
                && after[k].reserved == run.reserved && after[k].header_idx == run.header_idx
            &&& k < i ==> after[k] == codes[k]
        }),
{
    assert(8192u64 & 8192u64 != 0) by (bit_vector);
}

/// A syncpoint sets every stream's clock: to the last of its own ticks at or
/// before the time that it says.
pub proof fn a_syncpoint_sets_every_clock(body: Seq<u8>, reading: ReadingModel, i: int)
    requires
        0 <= i < reading.streams.len(),
        reading.main.time_bases.len() > 0,
    ensures
        synced(body, reading) matches Ok(last) ==> (crate::export::nut::cursor::field_at(
            body,
            0,
        ) matches Ok((said, _)) && last.len() == reading.streams.len() && {
            let count = reading.main.time_bases.len() as int;
            let base = reading.main.time_bases[said as int % count];
            let own = reading.streams[i].time_base;
            let ticks = clamped(said as int / count);
            let (n, d) = (ticks * base.num * own.den, base.den * own.num);
            crate::time::rescaled(ticks, base, own, crate::time::Rounding::Down) is Some ==> last[i]
                * d <= n < last[i] * d + d
        }),
{
    if let Ok((said, _)) = crate::export::nut::cursor::field_at(body, 0) {
        let count = reading.main.time_bases.len() as int;
        a_conversion_keeps_the_time(
            clamped(said as int / count),
            reading.main.time_bases[said as int % count],
            reading.streams[i].time_base,
            crate::time::Rounding::Down,
        );
    }
}

/// A packet of the format: its startcode, how much follows, what it holds and
/// what that sums up to; the head is summed up too where much follows.
pub proof fn a_packet_is_laid_out(startcode: u64, body: Seq<u8>)
    requires
        body.len() <= u32::MAX,
    ensures
        ({
            let head = big_endian(startcode as int, 8) + coded(body.len() as int + 4);
            let tail = body + big_endian(checksum(0, body) as int, 4);
            &&& body.len() <= 4092 ==> packet_bytes(startcode, body) == head + tail
            &&& body.len() > 4092 ==> packet_bytes(startcode, body) == head + big_endian(
                checksum(0, head) as int,
                4,
            ) + tail
        }),
{
    reveal(packet_bytes);
}

/// A frame: its code, its stream, its time above the short ones' range, its
/// length and what that sums up to, and then its bytes.
pub proof fn a_frame_is_laid_out(packet: PacketModel, shift: u64)
    requires
        0 <= packet.pts <= i64::MAX,
        shift < 16,
        0 <= packet.stream,
    ensures
        ({
            let code: u8 = if packet.key {
                129
            } else {
                0
            };
            let head = seq![code] + coded(packet.stream) + coded(packet.pts + pow2(shift)) + coded(
                packet.data.len() as int,
            );
            frame_bytes(packet, shift) == head + big_endian(checksum(0, head) as int, 4)
                + packet.data
        }),
{
    reveal(frame_bytes);
    lemma_pow2(shift);
    let code: u8 = if packet.key {
        129
    } else {
        0
    };
    let head = seq![code] + coded(packet.stream) + coded(packet.pts + pow2(shift)) + coded(
        packet.data.len() as int,
    );
    assert(head =~= crate::export::nut::write::frame_head(packet, shift));
    assert(frame_bytes(packet, shift) =~= head + big_endian(checksum(0, head) as int, 4)
        + packet.data);
}

/// A syncpoint says its time with its base, and how far back the last one is, in
/// sixteens.
pub proof fn a_syncpoint_is_laid_out(pts: int, bases: Seq<Rational>, at: int, back: int)
    requires
        0 <= at < bases.len() <= 1024,
        forall|k: int| 0 <= k < at ==> #[trigger] bases[k] != bases[at],
        0 <= pts <= 0xFFFF_FFFF_FFFF,
        back >= 0,
    ensures
        sync_body(pts, bases, bases[at], back) == coded(pts * bases.len() + at) + coded(back / 16),
{
    reveal(sync_body);
    lemma_index(bases, at);
    assert(0 <= pts * bases.len() <= 0xFFFF_FFFF_FFFF * 1024) by (nonlinear_arith)
        requires
            0 <= pts <= 0xFFFF_FFFF_FFFF,
            0 <= bases.len() <= 1024,
    ;
}

proof fn lemma_index(bases: Seq<Rational>, at: int)
    requires
        0 <= at < bases.len(),
        forall|k: int| 0 <= k < at ==> #[trigger] bases[k] != bases[at],
    ensures
        crate::export::nut::write::base_index(bases, bases[at]) == at,
    decreases at,
{
    assert(bases.contains(bases[at]));
    if at > 0 {
        assert(bases[0] != bases[at]);
        let rest = bases.skip(1);
        assert(rest[at - 1] == bases[at]);
        assert forall|k: int| 0 <= k < at - 1 implies #[trigger] rest[k] != rest[at - 1] by {
            assert(rest[k] == bases[k + 1]);
        }
        lemma_index(rest, at - 1);
    }
}

/// A checksum is that of the polynomial that the format names: a byte of one
/// leaves just that.
pub proof fn a_checksum_divides_by_its_polynomial()
    ensures
        crc_byte(0, 1) == 0x04C1_1DB7,
        checksum(0, seq![1u8]) == 0x04C1_1DB7,
{
    assert(crc_byte(0, 1) == 0x04C1_1DB7) by (bit_vector);
    let one = seq![1u8];
    assert(one.drop_last().len() == 0);
    assert(checksum(0, one.drop_last()) == 0);
    assert(one.last() == 1u8);
}

/// A frame that is all there and sums up is read.
pub proof fn a_whole_frame_is_read(reading: ReadingModel, last: Seq<i64>, s: Seq<u8>, at: int)
    ensures
        head_at(reading, last, s, at) matches Ok((head, next)) ==> {
            let front = reading.main.elision[head.header_idx as int];
            let summed = head.flags & 64 != 0;
            let start = if summed {
                next + 4
            } else {
                next
            };
            let size = head.size - front.len();
            frame_at(reading, last, s, at) is Ok <==> head.header_idx < reading.main.elision.len()
                && 0 <= size <= 0x1000_0000 && start + size <= s.len() && (summed ==> checksum(
                0,
                s.subrange(at, start),
            ) == 0)
        },
{
}

} // verus!
