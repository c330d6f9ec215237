//! Reading a sequence parameter set far enough to know whether two streams
//! can share a decoder: profile, level, chroma format and bit depth.
//!
//! The configuration of a copied stream arrives as a container record
//! (`avcC`, `hvcC`, `av1C`); an encoder writing NUT hands over the same
//! parameter sets in Annex B form. Both are reduced to their sequence
//! parameter set, and the same parser reads either, so the comparison cannot
//! depend on the packaging.
//!
//! The input came from a file or another process: every read is bounded and
//! a short or malformed record is `None`.
use crate::keyframes::nal::Codec;
use vstd::arithmetic::power2::{lemma2_to64, lemma_pow2_unfold, pow2};
use vstd::prelude::*;
use vstd::slice::slice_subrange;

verus! {

/// What a sequence parameter set says about the stream.
#[derive(Debug, Clone, Copy, PartialEq, Eq, Structural)]
pub struct Sequence {
    pub profile: u8,
    pub level: u8,
    /// `chroma_format_idc`: 1 is 4:2:0. `None` where not read.
    pub chroma: Option<u8>,
    pub bit_depth: Option<u8>,
}

/// The byte at `i` of a unit is there only to keep the unit from looking like
/// a start code.
pub open spec fn is_emulation_prevention(unit: Seq<u8>, i: int) -> bool {
    i >= 2 && unit[i] == 3 && unit[i - 1] == 0 && unit[i - 2] == 0
}

/// A unit without its emulation-prevention bytes.
pub open spec fn payload(unit: Seq<u8>) -> Seq<u8>
    decreases unit.len(),
{
    if unit.len() == 0 {
        Seq::empty()
    } else if is_emulation_prevention(unit, unit.len() - 1) {
        payload(unit.drop_last())
    } else {
        payload(unit.drop_last()).push(unit.last())
    }
}

/// The bit at `at`, most significant first.
pub open spec fn bit_at(bytes: Seq<u8>, at: int) -> u8 {
    (bytes[at / 8] >> ((7 - at % 8) as u8)) & 1u8
}

/// The number that `count` bits from `at` on spell, most significant first.
pub open spec fn number_at(bytes: Seq<u8>, at: int, count: nat) -> int
    decreases count,
{
    if count == 0 {
        0
    } else {
        2 * number_at(bytes, at, (count - 1) as nat) + bit_at(bytes, at + count - 1)
    }
}

/// How many zero bits stand from `at` on before a one or the end.
pub open spec fn zeros_at(bytes: Seq<u8>, at: int) -> nat
    decreases 8 * bytes.len() - at,
{
    if at < 0 || at >= 8 * bytes.len() || bit_at(bytes, at) == 1 {
        0
    } else {
        1 + zeros_at(bytes, at + 1)
    }
}

/// The unsigned Exp-Golomb number at `at` and where it ends: as many bits as
/// the zeros before its leading one, added to that power of two less one.
/// Nothing where it is cut off or has more than 31 leading zeros.
pub open spec fn golomb(bytes: Seq<u8>, at: int) -> Option<(int, int)> {
    let zeros = zeros_at(bytes, at);
    if zeros > 31 || at + 2 * zeros + 1 > 8 * bytes.len() {
        None
    } else {
        Some(
            (
                pow2(zeros) - 1 + number_at(bytes, at + zeros + 1, zeros),
                at + 2 * zeros + 1,
            ),
        )
    }
}

/// Where `count` Exp-Golomb numbers from `at` on end.
pub open spec fn after_golombs(bytes: Seq<u8>, at: int, count: nat) -> Option<int>
    decreases count,
{
    if count == 0 {
        Some(at)
    } else {
        match golomb(bytes, at) {
            None => None,
            Some((_, next)) => after_golombs(bytes, next, (count - 1) as nat),
        }
    }
}

/// A chroma format and a bit depth less eight, where both fit.
pub open spec fn colour(chroma: int, depth: int) -> Option<(u8, u8)> {
    if chroma <= 255 && depth + 8 <= 255 {
        Some((chroma as u8, (depth + 8) as u8))
    } else {
        None
    }
}

/// The H.264 profiles whose parameter sets state chroma format and bit depth.
pub open spec fn states_colour(profile: int) -> bool {
    profile == 100 || profile == 110 || profile == 122 || profile == 244 || profile == 44 || profile
        == 83 || profile == 86 || profile == 118 || profile == 128 || profile == 138 || profile
        == 139 || profile == 134 || profile == 135
}

/// The chroma format and the bit depth at `at` of an H.264 parameter set: an
/// Exp-Golomb number each, with one flag between them for 4:4:4.
pub open spec fn h264_colour(b: Seq<u8>, at: int) -> Option<(u8, u8)> {
    match golomb(b, at) {
        None => None,
        Some((chroma, next)) => {
            match golomb(
                b,
                if chroma == 3 {
                    next + 1
                } else {
                    next
                },
            ) {
                None => None,
                Some((depth, _)) => colour(chroma, depth),
            }
        },
    }
}

/// What an H.264 parameter set says: profile, constraint flags and level of
/// eight bits each, its id, then the colour where the profile states it;
/// other profiles are 4:2:0 of eight bits.
#[verifier::opaque]
pub open spec fn h264_set(unit: Seq<u8>) -> Option<Sequence> {
    let b = payload(unit.skip(1));
    if unit.len() < 1 || b.len() < 3 {
        None
    } else {
        let profile = number_at(b, 0, 8);
        let level = number_at(b, 16, 8);
        match golomb(b, 24) {
            None => None,
            Some((_, at)) => {
                match if states_colour(profile) {
                    h264_colour(b, at)
                } else {
                    Some((1u8, 8u8))
                } {
                    None => None,
                    Some((chroma, depth)) => Some(
                        Sequence {
                            profile: profile as u8,
                            level: level as u8,
                            chroma: Some(chroma),
                            bit_depth: Some(depth),
                        },
                    ),
                }
            },
        }
    }
}

/// The bits that the first `count` sub-layers of an HEVC parameter set take:
/// two flags each stand at bit 104 on and say whether a profile and a level
/// follow.
pub open spec fn sub_layer_bits(b: Seq<u8>, count: nat) -> int
    decreases count,
{
    if count == 0 {
        0
    } else {
        let n = (count - 1) as nat;
        sub_layer_bits(b, n) + (if bit_at(b, 104 + 2 * n as int) == 1 {
            88int
        } else {
            0
        }) + (if bit_at(b, 105 + 2 * n as int) == 1 {
            8int
        } else {
            0
        })
    }
}

/// The colour at `at` of an HEVC parameter set: the set's id, the chroma
/// format, a flag for 4:4:4, the two dimensions, the four sides of a
/// conformance window where a flag says so, and the bit depth.
pub open spec fn hevc_colour(b: Seq<u8>, at: int) -> Option<(u8, u8)> {
    match after_golombs(b, at, 1) {
        None => None,
        Some(at) => match golomb(b, at) {
            None => None,
            Some((chroma, next)) => {
                match after_golombs(
                    b,
                    if chroma == 3 {
                        next + 1
                    } else {
                        next
                    },
                    2,
                ) {
                    None => None,
                    Some(at) => hevc_depth(b, at, chroma),
                }
            },
        },
    }
}

/// The end of an HEVC parameter set's colour, from the window's flag on.
pub open spec fn hevc_depth(b: Seq<u8>, at: int, chroma: int) -> Option<(u8, u8)> {
    if at >= 8 * b.len() {
        None
    } else {
        match after_golombs(
            b,
            at + 1,
            if bit_at(b, at) == 1 {
                4
            } else {
                0
            },
        ) {
            None => None,
            Some(at) => match golomb(b, at) {
                None => None,
                Some((depth, _)) => colour(chroma, depth),
            },
        }
    }
}

/// Where the part of an HEVC parameter set behind its profile, tier and level
/// starts.
pub open spec fn hevc_body(b: Seq<u8>) -> int {
    let layers = number_at(b, 4, 3);
    if layers == 0 {
        104
    } else {
        120 + sub_layer_bits(b, layers as nat)
    }
}

/// What an HEVC parameter set says: behind two bytes of header the number of
/// sub-layers at bit 4, the profile at bit 11, the level at bit 96, and the
/// colour behind the sub-layers.
#[verifier::opaque]
pub open spec fn hevc_set(unit: Seq<u8>) -> Option<Sequence> {
    let b = payload(unit.skip(2));
    if unit.len() < 2 || b.len() < 13 || hevc_body(b) > 8 * b.len() {
        None
    } else {
        match hevc_colour(b, hevc_body(b)) {
            None => None,
            Some((chroma, depth)) => Some(
                Sequence {
                    profile: number_at(b, 11, 5) as u8,
                    level: number_at(b, 96, 8) as u8,
                    chroma: Some(chroma),
                    bit_depth: Some(depth),
                },
            ),
        }
    }
}

/// Every bit is zero or one.
proof fn lemma_bit(bytes: Seq<u8>, at: int)
    ensures
        bit_at(bytes, at) <= 1,
{
    let byte = bytes[at / 8];
    let shift = (7 - at % 8) as u8;
    assert((byte >> shift) & 1u8 <= 1) by (bit_vector);
}

/// A number of some bits lies below that power of two.
proof fn lemma_number_bound(bytes: Seq<u8>, at: int, count: nat)
    ensures
        0 <= number_at(bytes, at, count) < pow2(count),
    decreases count,
{
    if count == 0 {
        lemma2_to64();
    } else {
        lemma_number_bound(bytes, at, (count - 1) as nat);
        lemma_bit(bytes, at + count - 1);
        lemma_pow2_unfold(count);
    }
}

/// Reads bits, most significant first.
pub struct Bits {
    pub bytes: Vec<u8>,
    /// How many bits were read: as wide as eight times any length.
    pub at: u128,
}

impl Bits {
    /// What was read lies within the bytes.
    pub open spec fn wf(&self) -> bool {
        self.at <= 8 * self.bytes@.len()
    }

    /// The position of the next bit.
    pub open spec fn place(&self) -> int {
        self.at as int
    }

    /// A reader of a unit's payload, emulation-prevention bytes removed.
    pub fn new(nal: &[u8]) -> (bits: Bits)
        ensures
            bits.bytes@ == payload(nal@),
            bits.at == 0,
            bits.wf(),
    {
        let mut bytes: Vec<u8> = Vec::new();
        let mut i: usize = 0;
        proof {
            assert(nal@.take(0) =~= Seq::empty());
        }
        while i < nal.len()
            invariant
                i <= nal@.len(),
                bytes@ == payload(nal@.take(i as int)),
            decreases nal@.len() - i,
        {
            proof {
                let more = nal@.take(i + 1);
                assert(more.drop_last() =~= nal@.take(i as int));
                assert(more.last() == nal@[i as int]);
            }
            let escape = i >= 2 && nal[i] == 3 && nal[i - 1] == 0 && nal[i - 2] == 0;
            if !escape {
                bytes.push(nal[i]);
            }
            i += 1;
        }
        proof {
            assert(nal@.take(nal@.len() as int) =~= nal@);
        }
        Bits { bytes, at: 0 }
    }

    /// The next bit.
    fn bit(&mut self) -> (bit: Option<u8>)
        requires
            old(self).wf(),
        ensures
            final(self).wf(),
            final(self).bytes@ == old(self).bytes@,
            bit is Some <==> old(self).place() < 8 * old(self).bytes@.len(),
            bit is Some ==> bit->0 == bit_at(old(self).bytes@, old(self).place()) && final(self).place() == old(self).place() + 1 && bit->0 <= 1,
    {
        let index: u128 = self.at / 8;
        if index >= self.bytes.len() as u128 {
            return None;
        }
        let byte = self.bytes[index as usize];
        let shift: u8 = 7 - (self.at % 8) as u8;
        proof {
            lemma_bit(self.bytes@, self.at as int);
        }
        self.at = self.at + 1;
        Some((byte >> shift) & 1)
    }

    /// The number that the next `count` bits spell.
    fn bits(&mut self, count: u8) -> (value: Option<u32>)
        requires
            old(self).wf(),
            count <= 32,
        ensures
            final(self).wf(),
            final(self).bytes@ == old(self).bytes@,
            value is Some <==> old(self).place() + count <= 8 * old(self).bytes@.len(),
            value is Some ==> value->0 == number_at(
                old(self).bytes@,
                old(self).place(),
                count as nat,
            ) && final(self).place() == old(self).place() + count && value->0 < pow2(count as nat),
    {
        let mut value: u64 = 0;
        let mut i: u8 = 0;
        let ghost start = self.place();
        let ghost bytes = self.bytes@;
        proof {
            lemma2_to64();
        }
        while i < count
            invariant
                i <= count <= 32,
                self.wf(),
                self.bytes@ == bytes,
                self.place() == start + i,
                start == old(self).place(),
                bytes == old(self).bytes@,
                value == number_at(bytes, start, i as nat),
                value < pow2(i as nat),
                pow2(32) == 0x1_0000_0000,
            decreases count - i,
        {
            proof {
                lemma_number_bound(bytes, start, (i + 1) as nat);
                lemma_pow2_unfold((i + 1) as nat);
                if i < 31 {
                    vstd::arithmetic::power2::lemma_pow2_strictly_increases((i + 1) as nat, 32);
                }
            }
            match self.bit() {
                None => {
                    return None;
                },
                Some(bit) => {
                    value = value * 2 + bit as u64;
                },
            }
            i += 1;
        }
        proof {
            if count < 32 {
                vstd::arithmetic::power2::lemma_pow2_strictly_increases(count as nat, 32);
            }
        }
        Some(value as u32)
    }

    /// Passes over `count` bits, where there are as many.
    fn skip(&mut self, count: u32) -> (done: Option<()>)
        requires
            old(self).wf(),
        ensures
            final(self).wf(),
            final(self).bytes@ == old(self).bytes@,
            done is Some <==> old(self).place() + count <= 8 * old(self).bytes@.len(),
            final(self).place() == old(self).place() + (if done is Some {
                count as int
            } else {
                0
            }),
    {
        let all: u128 = self.bytes.len() as u128 * 8;
        if all - self.at < count as u128 {
            return None;
        }
        self.at = self.at + count as u128;
        Some(())
    }

    /// The next unsigned Exp-Golomb number.
    fn ue(&mut self) -> (value: Option<u32>)
        requires
            old(self).wf(),
        ensures
            final(self).wf(),
            final(self).bytes@ == old(self).bytes@,
            match golomb(old(self).bytes@, old(self).place()) {
                None => value is None,
                Some((number, next)) => value is Some && value->0 == number && final(self).place()
                    == next,
            },
    {
        let ghost start = self.place();
        let ghost bytes = self.bytes@;
        let mut zeros: u8 = 0;
        loop
            invariant_except_break
                self.place() == start + zeros,
                zeros_at(bytes, start) == zeros + zeros_at(bytes, start + zeros),
            invariant
                self.wf(),
                self.bytes@ == bytes,
                zeros <= 31,
                start == old(self).place(),
                bytes == old(self).bytes@,
                start >= 0,
            ensures
                zeros == zeros_at(bytes, start),
                self.place() == start + zeros + 1,
            decreases 32 - zeros,
        {
            match self.bit() {
                None => {
                    return None;
                },
                Some(bit) => {
                    if bit == 1 {
                        break ;
                    }
                    if zeros == 31 {
                        return None;
                    }
                    zeros += 1;
                },
            }
        }
        proof {
            lemma2_to64();
            if zeros < 31 {
                vstd::arithmetic::power2::lemma_pow2_strictly_increases(zeros as nat, 31);
            }
            lemma_pow2_is_shift(zeros);
        }
        match self.bits(zeros) {
            None => None,
            Some(rest) => Some(((1u32 << zeros) - 1) + rest),
        }
    }

    /// Passes over `count` Exp-Golomb numbers.
    fn skip_golombs(&mut self, count: u8) -> (done: Option<()>)
        requires
            old(self).wf(),
        ensures
            final(self).wf(),
            final(self).bytes@ == old(self).bytes@,
            match after_golombs(old(self).bytes@, old(self).place(), count as nat) {
                None => done is None,
                Some(next) => done is Some && final(self).place() == next,
            },
    {
        let mut i: u8 = 0;
        while i < count
            invariant
                i <= count,
                self.wf(),
                self.bytes@ == old(self).bytes@,
                after_golombs(old(self).bytes@, old(self).place(), count as nat) == after_golombs(
                    self.bytes@,
                    self.place(),
                    (count - i) as nat,
                ),
            decreases count - i,
        {
            self.ue()?;
            i += 1;
        }
        Some(())
    }
}

/// A one shifted left is a power of two.
proof fn lemma_pow2_is_shift(n: u8)
    requires
        n <= 31,
    ensures
        1u32 << n == pow2(n as nat),
{
    vstd::bits::lemma_u32_pow2_no_overflow(n as nat);
    vstd::bits::lemma_u32_shl_is_mul(1, n as u32);
    let wide = n as u32;
    assert(1u32 << n == 1u32 << wide) by (bit_vector)
        requires
            wide == n as u32,
    ;
}

/// A chroma format and a bit depth less eight as bytes.
fn colour_bytes(chroma: u32, depth: u32) -> (both: Option<(u8, u8)>)
    ensures
        both == colour(chroma as int, depth as int),
{
    if chroma <= 255 && depth <= 247 {
        Some((chroma as u8, depth as u8 + 8))
    } else {
        None
    }
}

/// The chroma format and the bit depth of an H.264 parameter set.
fn read_h264_colour(bits: &mut Bits) -> (both: Option<(u8, u8)>)
    requires
        old(bits).wf(),
    ensures
        both == h264_colour(old(bits).bytes@, old(bits).place()),
{
    let chroma = bits.ue()?;
    if chroma == 3 {
        if bits.skip(1).is_none() {
            proof {
                lemma_golomb_past_the_end(bits.bytes@, bits.place() + 1);
            }
            return None;
        }
    }
    let depth = bits.ue()?;
    colour_bytes(chroma, depth)
}

/// Nothing can be read past the last bit.
proof fn lemma_golomb_past_the_end(bytes: Seq<u8>, at: int)
    requires
        at >= 8 * bytes.len(),
    ensures
        golomb(bytes, at) is None,
{
}

/// Reads an H.264 SPS unit, its header byte first.
pub fn h264(nal: &[u8]) -> (sequence: Option<Sequence>)
    ensures
        sequence == h264_set(nal@),
{
    proof {
        reveal(h264_set);
        lemma2_to64();
    }
    if nal.len() < 1 {
        return None;
    }
    let mut bits = Bits::new(slice_subrange(nal, 1, nal.len()));
    let ghost b = bits.bytes@;
    proof {
        assert(nal@.subrange(1, nal@.len() as int) =~= nal@.skip(1));
    }
    let profile = bits.bits(8)?;
    bits.skip(8)?;
    let level = bits.bits(8)?;
    bits.ue()?;
    let stated = match profile {
        100 | 110 | 122 | 244 | 44 | 83 | 86 | 118 | 128 | 138 | 139 | 134 | 135 => true,
        _ => false,
    };
    let (chroma, depth) = if stated {
        read_h264_colour(&mut bits)?
    } else {
        (1u8, 8u8)
    };
    Some(
        Sequence {
            profile: profile as u8,
            level: level as u8,
            chroma: Some(chroma),
            bit_depth: Some(depth),
        },
    )
}

/// The colour of an HEVC parameter set, from its id on.
fn read_hevc_colour(bits: &mut Bits) -> (both: Option<(u8, u8)>)
    requires
        old(bits).wf(),
    ensures
        both == hevc_colour(old(bits).bytes@, old(bits).place()),
{
    bits.skip_golombs(1)?;
    let chroma = bits.ue()?;
    if chroma == 3 {
        if bits.skip(1).is_none() {
            proof {
                lemma_golomb_past_the_end(bits.bytes@, bits.place() + 1);
            }
            return None;
        }
    }
    bits.skip_golombs(2)?;
    let window = bits.bit()?;
    bits.skip_golombs(if window == 1 { 4 } else { 0 })?;
    let depth = bits.ue()?;
    colour_bytes(chroma, depth)
}

/// Passes over the sub-layers of an HEVC parameter set, whose number is
/// `layers`, from their flags on.
fn skip_sub_layers(bits: &mut Bits, layers: u32) -> (done: Option<()>)
    requires
        old(bits).wf(),
        old(bits).place() == 104,
        1 <= layers <= 7,
    ensures
        final(bits).wf(),
        final(bits).bytes@ == old(bits).bytes@,
        done is Some <==> 120 + sub_layer_bits(old(bits).bytes@, layers as nat) <= 8 * old(
            bits,
        ).bytes@.len(),
        done is Some ==> final(bits).place() == 120 + sub_layer_bits(
            old(bits).bytes@,
            layers as nat,
        ),
{
    let ghost b = bits.bytes@;
    let mut extra: u32 = 0;
    let mut i: u32 = 0;
    while i < layers
        invariant
            i <= layers <= 7,
            bits.wf(),
            bits.bytes@ == b,
            b == old(bits).bytes@,
            bits.place() == 104 + 2 * i,
            extra == sub_layer_bits(b, i as nat),
            extra <= 96 * i,
        decreases layers - i,
    {
        proof {
            lemma_sub_layers_are_positive(b, (i + 1) as nat, layers as nat);
        }
        let profile = bits.bit()?;
        let level = bits.bit()?;
        if profile == 1 {
            extra += 88;
        }
        if level == 1 {
            extra += 8;
        }
        i += 1;
    }
    proof {
        lemma_sub_layers_are_positive(b, layers as nat, layers as nat);
    }
    bits.skip(2 * (8 - layers))?;
    bits.skip(extra)
}

/// More sub-layers never take fewer bits.
proof fn lemma_sub_layers_are_positive(b: Seq<u8>, some: nat, more: nat)
    requires
        some <= more,
    ensures
        0 <= sub_layer_bits(b, some) <= sub_layer_bits(b, more),
    decreases more,
{
    if some < more {
        lemma_sub_layers_are_positive(b, some, (more - 1) as nat);
    } else if more > 0 {
        lemma_sub_layers_are_positive(b, (some - 1) as nat, (more - 1) as nat);
    }
}

/// Reads an HEVC SPS unit, its two header bytes first.
pub fn hevc(nal: &[u8]) -> (sequence: Option<Sequence>)
    ensures
        sequence == hevc_set(nal@),
{
    proof {
        reveal(hevc_set);
        lemma2_to64();
    }
    if nal.len() < 2 {
        return None;
    }
    let mut bits = Bits::new(slice_subrange(nal, 2, nal.len()));
    let ghost b = bits.bytes@;
    proof {
        assert(nal@.subrange(2, nal@.len() as int) =~= nal@.skip(2));
    }
    bits.skip(4)?;
    let layers = bits.bits(3)?;
    bits.skip(4)?;
    let profile = bits.bits(5)?;
    bits.skip(80)?;
    let level = bits.bits(8)?;
    if layers > 0 {
        skip_sub_layers(&mut bits, layers)?;
    }
    let (chroma, depth) = read_hevc_colour(&mut bits)?;
    Some(
        Sequence {
            profile: profile as u8,
            level: level as u8,
            chroma: Some(chroma),
            bit_depth: Some(depth),
        },
    )
}

/// A three-byte start code stands at `at`.
pub open spec fn start_code_at(stream: Seq<u8>, at: int) -> bool {
    0 <= at && at + 3 <= stream.len() && stream[at] == 0 && stream[at + 1] == 0 && stream[at + 2]
        == 1
}

/// Where the first start code at `at` or behind stands; the stream's length
/// where there is none.
pub open spec fn next_start_code(stream: Seq<u8>, at: int) -> int
    decreases stream.len() - at,
{
    if at + 3 > stream.len() {
        stream.len() as int
    } else if start_code_at(stream, at) {
        at
    } else {
        next_start_code(stream, at + 1)
    }
}

/// Bytes without the zeros at their end.
pub open spec fn without_zeros(bytes: Seq<u8>) -> Seq<u8>
    decreases bytes.len(),
{
    if bytes.len() > 0 && bytes.last() == 0 {
        without_zeros(bytes.drop_last())
    } else {
        bytes
    }
}

/// The units of an Annex B stream whose first one starts at `at`: each ends
/// at the next start code, less the zeros that lead it; the last one ends the
/// stream.
pub open spec fn units_from(stream: Seq<u8>, at: int) -> Seq<Seq<u8>>
    decreases stream.len() - at,
    via units_from_decreases
{
    let next = next_start_code(stream, at);
    if at < 0 || at > stream.len() {
        Seq::empty()
    } else if next >= stream.len() {
        seq![stream.skip(at)]
    } else {
        seq![without_zeros(stream.subrange(at, next))] + units_from(stream, next + 3)
    }
}

#[via_fn]
proof fn units_from_decreases(stream: Seq<u8>, at: int) {
    lemma_next_start_code(stream, at);
}

/// The first start code behind a place is one, and none stands before it.
pub proof fn lemma_next_start_code(stream: Seq<u8>, at: int)
    ensures
        at <= stream.len() ==> at <= next_start_code(stream, at) <= stream.len(),
        at > stream.len() ==> next_start_code(stream, at) == stream.len(),
        at >= 0 && next_start_code(stream, at) < stream.len() ==> start_code_at(
            stream,
            next_start_code(stream, at),
        ),
        forall|i: int|
            at <= i < next_start_code(stream, at) ==> !#[trigger] start_code_at(stream, i),
    decreases stream.len() - at,
{
    if at + 3 <= stream.len() && !start_code_at(stream, at) {
        lemma_next_start_code(stream, at + 1);
    }
}

/// The NAL units of an Annex B byte stream.
pub open spec fn annex_b(stream: Seq<u8>) -> Seq<Seq<u8>> {
    let first = next_start_code(stream, 0);
    if first >= stream.len() {
        Seq::empty()
    } else {
        units_from(stream, first + 3)
    }
}

/// The bytes that each of the borrowed `units` holds.
pub open spec fn contents(units: Seq<&[u8]>) -> Seq<Seq<u8>> {
    units.map_values(|unit: &[u8]| unit@)
}

/// Finds the first start code at `at` or behind.
fn find_start_code(stream: &[u8], at: usize) -> (next: usize)
    requires
        at <= stream@.len(),
    ensures
        next == next_start_code(stream@, at as int),
        at <= next <= stream@.len(),
{
    let mut i: usize = at;
    while stream.len() - i >= 3
        invariant
            at <= i <= stream@.len(),
            next_start_code(stream@, at as int) == next_start_code(stream@, i as int),
        decreases stream@.len() - i,
    {
        if stream[i] == 0 && stream[i + 1] == 0 && stream[i + 2] == 1 {
            return i;
        }
        i += 1;
    }
    stream.len()
}

/// The NAL units of an Annex B byte stream.
pub fn annex_b_units(stream: &[u8]) -> (units: Vec<&[u8]>)
    ensures
        contents(units@) == annex_b(stream@),
{
    let mut units: Vec<&[u8]> = Vec::new();
    let first = find_start_code(stream, 0);
    proof {
        lemma_next_start_code(stream@, 0);
        assert(contents(units@) =~= Seq::empty());
    }
    if first == stream.len() {
        return units;
    }
    let mut at: usize = first + 3;
    loop
        invariant
            at <= stream@.len(),
            annex_b(stream@) == contents(units@) + units_from(stream@, at as int),
        decreases stream@.len() - at,
    {
        let next = find_start_code(stream, at);
        proof {
            lemma_next_start_code(stream@, at as int);
        }
        let ghost before = units@;
        if next == stream.len() {
            units.push(slice_subrange(stream, at, stream.len()));
            proof {
                assert(stream@.subrange(at as int, stream@.len() as int) =~= stream@.skip(
                    at as int,
                ));
                assert(contents(units@) =~= contents(before).push(stream@.skip(at as int)));
                assert(units_from(stream@, at as int) =~= seq![stream@.skip(at as int)]);
                assert(annex_b(stream@) =~= contents(units@));
            }
            return units;
        }
        let mut end: usize = next;
        while end > at && stream[end - 1] == 0
            invariant
                at <= end <= next < stream@.len(),
                without_zeros(stream@.subrange(at as int, next as int)) == without_zeros(
                    stream@.subrange(at as int, end as int),
                ),
            decreases end,
        {
            proof {
                let part = stream@.subrange(at as int, end as int);
                assert(part.drop_last() =~= stream@.subrange(at as int, end - 1));
                assert(part.last() == 0);
            }
            end -= 1;
        }
        let unit = slice_subrange(stream, at, end);
        units.push(unit);
        proof {
            let whole = without_zeros(stream@.subrange(at as int, next as int));
            assert(unit@ == whole);
            assert(contents(units@) =~= contents(before).push(whole));
            assert(units_from(stream@, at as int) == seq![whole] + units_from(
                stream@,
                next + 3,
            ));
            assert(annex_b(stream@) =~= contents(units@) + units_from(stream@, next + 3));
        }
        at = next + 3;
    }
}

/// The bytes start with a start code.
pub open spec fn starts_annex_b(record: Seq<u8>) -> bool {
    start_code_at(record, 0) || (record.len() > 0 && record[0] == 0 && start_code_at(record, 1))
}

/// Whether a configuration starts with a start code.
pub fn is_annex_b(record: &[u8]) -> (yes: bool)
    ensures
        yes == starts_annex_b(record@),
{
    (record.len() >= 3 && record[0] == 0 && record[1] == 0 && record[2] == 1) || (record.len() >= 4
        && record[0] == 0 && record[1] == 0 && record[2] == 0 && record[3] == 1)
}

/// The two bytes at `at`, big end first.
pub open spec fn pair_at(record: Seq<u8>, at: int) -> int {
    record[at] * 256 + record[at + 1]
}

/// The SPS of an `avcC` record: behind its count, which is not zero, and its
/// length.
pub open spec fn avcc(record: Seq<u8>) -> Option<Seq<u8>> {
    if record.len() < 8 || record[5] % 32 == 0 || 8 + pair_at(record, 6) > record.len() {
        None
    } else {
        Some(record.subrange(8, 8 + pair_at(record, 6)))
    }
}

/// The first unit of the kind of an SPS in the arrays of an `hvcC` record
/// from `at` on: `count` units of `kind` are left of the present array, and
/// `arrays` arrays follow it.
pub open spec fn hvcc_from(record: Seq<u8>, at: int, kind: u8, count: nat, arrays: nat) -> Option<
    Seq<u8>,
>
    decreases arrays, count,
{
    if count > 0 {
        if at + 2 > record.len() || at + 2 + pair_at(record, at) > record.len() {
            None
        } else if kind == 33 {
            Some(record.subrange(at + 2, at + 2 + pair_at(record, at)))
        } else {
            hvcc_from(record, at + 2 + pair_at(record, at), kind, (count - 1) as nat, arrays)
        }
    } else if arrays == 0 || at + 3 > record.len() {
        None
    } else {
        hvcc_from(
            record,
            at + 3,
            record[at] % 64,
            pair_at(record, at + 1) as nat,
            (arrays - 1) as nat,
        )
    }
}

/// The SPS of an `hvcC` record: the first unit of an array of that kind.
pub open spec fn hvcc(record: Seq<u8>) -> Option<Seq<u8>> {
    if record.len() < 23 {
        None
    } else {
        hvcc_from(record, 23, 0, 0, record[22] as nat)
    }
}

/// The two bytes at `at`, big end first.
pub fn pair(record: &[u8], at: usize) -> (n: usize)
    requires
        at + 2 <= record@.len(),
    ensures
        n == pair_at(record@, at as int),
        n <= 0xffff,
{
    record[at] as usize * 256 + record[at + 1] as usize
}

/// The low five bits of a byte.
pub proof fn lemma_low_five(b: u8)
    ensures
        b & 0x1F == b % 32,
{
    assert(b & 0x1F == b % 32) by (bit_vector);
}

/// The low six bits of a byte, and the six above the lowest.
pub proof fn lemma_low_six(b: u8)
    ensures
        b & 0x3F == b % 64,
        (b >> 1) & 0x3F == (b / 2) % 64,
{
    assert(b & 0x3F == b % 64) by (bit_vector);
    assert((b >> 1) & 0x3F == (b / 2) % 64) by (bit_vector);
}

/// The SPS of an `avcC` record.
fn avcc_sps(record: &[u8]) -> (sps: Option<&[u8]>)
    ensures
        match avcc(record@) {
            Some(unit) => sps is Some && sps->0@ == unit,
            None => sps is None,
        },
{
    if record.len() < 8 {
        return None;
    }
    proof {
        lemma_low_five(record@[5]);
    }
    if record[5] & 0x1F == 0 {
        return None;
    }
    let length = pair(record, 6);
    if record.len() - 8 < length {
        return None;
    }
    Some(slice_subrange(record, 8, 8 + length))
}

/// The SPS of an `hvcC` record.
fn hvcc_sps(record: &[u8]) -> (sps: Option<&[u8]>)
    ensures
        match hvcc(record@) {
            Some(unit) => sps is Some && sps->0@ == unit,
            None => sps is None,
        },
{
    if record.len() < 23 {
        return None;
    }
    let mut arrays: u8 = record[22];
    let mut at: usize = 23;
    let mut kind: u8 = 0;
    let mut count: usize = 0;
    while count > 0 || arrays > 0
        invariant
            at <= record@.len(),
            hvcc(record@) == hvcc_from(record@, at as int, kind, count as nat, arrays as nat),
        decreases arrays, count,
    {
        if count > 0 {
            if record.len() - at < 2 {
                return None;
            }
            let length = pair(record, at);
            if record.len() - at - 2 < length {
                return None;
            }
            if kind == 33 {
                return Some(slice_subrange(record, at + 2, at + 2 + length));
            }
            at += 2 + length;
            count -= 1;
        } else {
            if record.len() - at < 3 {
                return None;
            }
            proof {
                lemma_low_six(record@[at as int]);
            }
            kind = record[at] & 0x3F;
            count = pair(record, at + 1);
            arrays -= 1;
            at += 3;
        }
    }
    None
}

/// A unit is a sequence parameter set: H.264 units of kind 7, HEVC units of
/// kind 33.
pub open spec fn is_sps(codec: Codec, unit: Seq<u8>) -> bool {
    unit.len() > 0 && match codec {
        Codec::H264 => unit[0] % 32 == 7,
        Codec::Hevc => (unit[0] / 2) % 64 == 33,
    }
}

/// The first sequence parameter set of some units.
pub open spec fn first_sps(codec: Codec, units: Seq<Seq<u8>>) -> Option<Seq<u8>>
    decreases units.len(),
{
    if units.len() == 0 {
        None
    } else if is_sps(codec, units[0]) {
        Some(units[0])
    } else {
        first_sps(codec, units.skip(1))
    }
}

/// The sequence parameter set that a configuration carries, in either
/// packaging.
pub open spec fn carried_sps(codec: Codec, record: Seq<u8>) -> Option<Seq<u8>> {
    if starts_annex_b(record) {
        first_sps(codec, annex_b(record))
    } else {
        match codec {
            Codec::H264 => avcc(record),
            Codec::Hevc => hvcc(record),
        }
    }
}

/// What a configuration says of its stream.
pub open spec fn sequence_of(codec: Codec, record: Seq<u8>) -> Option<Sequence> {
    match carried_sps(codec, record) {
        None => None,
        Some(unit) => match codec {
            Codec::H264 => h264_set(unit),
            Codec::Hevc => hevc_set(unit),
        },
    }
}

/// The first sequence parameter set of an Annex B stream.
fn annex_b_sps(codec: Codec, record: &[u8]) -> (sps: Option<&[u8]>)
    ensures
        match first_sps(codec, annex_b(record@)) {
            Some(unit) => sps is Some && sps->0@ == unit,
            None => sps is None,
        },
{
    let units = annex_b_units(record);
    let ghost all = contents(units@);
    let mut i: usize = 0;
    proof {
        assert(all.skip(0) =~= all);
    }
    while i < units.len()
        invariant
            i <= units@.len(),
            all == contents(units@),
            all == annex_b(record@),
            first_sps(codec, all) == first_sps(codec, all.skip(i as int)),
        decreases units@.len() - i,
    {
        let unit = units[i];
        proof {
            assert(all.skip(i as int)[0] == unit@);
            assert(all.skip(i as int).skip(1) =~= all.skip(i + 1));
        }
        if unit.len() > 0 {
            let head = unit[0];
            proof {
                lemma_low_five(head);
                lemma_low_six(head);
            }
            let found = match codec {
                Codec::H264 => head & 0x1F == 7,
                Codec::Hevc => (head >> 1) & 0x3F == 33,
            };
            if found {
                return Some(unit);
            }
        }
        i += 1;
    }
    None
}

/// The H.264 sequence an `avcC` record or an Annex B stream carries.
pub fn h264_sequence(record: &[u8]) -> (sequence: Option<Sequence>)
    ensures
        sequence == sequence_of(Codec::H264, record@),
{
    let sps = if is_annex_b(record) {
        annex_b_sps(Codec::H264, record)
    } else {
        avcc_sps(record)
    };
    match sps {
        Some(unit) => h264(unit),
        None => None,
    }
}

/// The HEVC sequence an `hvcC` record or an Annex B stream carries.
pub fn hevc_sequence(record: &[u8]) -> (sequence: Option<Sequence>)
    ensures
        sequence == sequence_of(Codec::Hevc, record@),
{
    let sps = if is_annex_b(record) {
        annex_b_sps(Codec::Hevc, record)
    } else {
        hvcc_sps(record)
    };
    match sps {
        Some(unit) => hevc(unit),
        None => None,
    }
}

/// Where a size field of seven bits a byte that starts at `at` ends: behind
/// the first byte below 128.
pub open spec fn size_end(record: Seq<u8>, at: int) -> Option<int>
    decreases record.len() - at,
{
    if at < 0 || at >= record.len() {
        None
    } else if record[at] < 128 {
        Some(at + 1)
    } else {
        size_end(record, at + 1)
    }
}

/// The profile and the level at the start of an AV1 sequence header: three
/// bits of profile, a still-picture flag, and a flag for a reduced header.
/// The level follows a reduced one; in a full one without timing information
/// it stands at bit 24. With timing information it is not read.
pub open spec fn av1_header(b: Seq<u8>) -> Option<Sequence> {
    if b.len() < 1 {
        None
    } else {
        let at: int = if bit_at(b, 4) == 1 {
            5
        } else {
            24
        };
        if 8 * b.len() < at + 5 || (at == 24 && bit_at(b, 5) == 1) {
            None
        } else {
            Some(
                Sequence {
                    profile: number_at(b, 0, 3) as u8,
                    level: number_at(b, at, 5) as u8,
                    chroma: None,
                    bit_depth: None,
                },
            )
        }
    }
}

/// What an AV1 configuration says of its stream: an `av1C` record, which
/// starts with its marker, states profile and level in its second byte;
/// anything else has to be a sequence header OBU, which may have a size field.
pub open spec fn av1_of(record: Seq<u8>) -> Option<Sequence> {
    if record.len() == 0 {
        None
    } else if record[0] == 0x81 {
        if record.len() < 2 {
            None
        } else {
            Some(
                Sequence {
                    profile: record[1] / 32,
                    level: record[1] % 32,
                    chroma: None,
                    bit_depth: None,
                },
            )
        }
    } else if (record[0] / 8) % 16 != 1 {
        None
    } else {
        match if (record[0] / 2) % 2 == 1 {
            size_end(record, 1)
        } else {
            Some(1)
        } {
            None => None,
            Some(at) => av1_header(record.skip(at)),
        }
    }
}

/// The parts of the first byte of an OBU: its kind in four bits, whether an
/// extension byte follows, whether a size follows.
pub proof fn lemma_obu_header(b: u8)
    ensures
        (b >> 3) & 0x0F == (b / 8) % 16,
        (b & 0x04 != 0) == ((b / 4) % 2 == 1),
        (b & 0x02 != 0) == ((b / 2) % 2 == 1),
        b >> 5 == b / 32,
        b & 0x1F == b % 32,
        (b & 0x80 != 0) == (b >= 128),
        b & 0x7F == b % 128,
{
    assert((b >> 3) & 0x0F == (b / 8) % 16) by (bit_vector);
    assert((b & 0x04 != 0) == ((b / 4) % 2 == 1)) by (bit_vector);
    assert((b & 0x02 != 0) == ((b / 2) % 2 == 1)) by (bit_vector);
    assert(b >> 5 == b / 32) by (bit_vector);
    assert(b & 0x1F == b % 32) by (bit_vector);
    assert((b & 0x80 != 0) == (b >= 128)) by (bit_vector);
    assert(b & 0x7F == b % 128) by (bit_vector);
}

/// Reads the profile and the level of an AV1 sequence header.
fn read_av1_header(bytes: Vec<u8>) -> (sequence: Option<Sequence>)
    ensures
        sequence == av1_header(bytes@),
{
    proof {
        lemma2_to64();
    }
    let mut bits = Bits { bytes, at: 0 };
    let profile = bits.bits(3)?;
    bits.skip(1)?;
    let reduced = bits.bit()?;
    if reduced != 1 {
        if bits.bit()? == 1 {
            return None;
        }
        bits.skip(18)?;
    }
    let level = bits.bits(5)?;
    Some(Sequence { profile: profile as u8, level: level as u8, chroma: None, bit_depth: None })
}

/// The AV1 sequence of an `av1C` record or a sequence header OBU: profile
/// and level only; its colour configuration is not reached.
pub fn av1_sequence(record: &[u8]) -> (sequence: Option<Sequence>)
    ensures
        sequence == av1_of(record@),
{
    if record.len() == 0 {
        return None;
    }
    let first = record[0];
    proof {
        lemma_obu_header(first);
    }
    if first == 0x81 {
        if record.len() < 2 {
            return None;
        }
        let second = record[1];
        proof {
            lemma_obu_header(second);
        }
        return Some(
            Sequence { profile: second >> 5, level: second & 0x1F, chroma: None, bit_depth: None },
        );
    }
    if (first >> 3) & 0x0F != 1 {
        return None;
    }
    let mut at: usize = 1;
    if first & 0x02 != 0 {
        loop
            invariant_except_break
                size_end(record@, 1) == size_end(record@, at as int),
            invariant
                1 <= at <= record@.len(),
                record@[0] != 0x81,
                (record@[0] / 8) % 16 == 1,
                (record@[0] / 2) % 2 == 1,
            ensures
                size_end(record@, 1) == Some(at as int),
            decreases record@.len() - at,
        {
            if at >= record.len() {
                return None;
            }
            proof {
                lemma_obu_header(record@[at as int]);
            }
            let last = record[at] & 0x80 == 0;
            at += 1;
            if last {
                break ;
            }
        }
    }
    let mut rest: Vec<u8> = Vec::new();
    crate::bytes::push_all(&mut rest, slice_subrange(record, at, record.len()));
    proof {
        assert(rest@ =~= record@.skip(at as int));
    }
    read_av1_header(rest)
}

/// The first start code is where one stands and none does before.
proof fn lemma_first_start_code(stream: Seq<u8>, at: int, code: int)
    requires
        0 <= at <= code,
        start_code_at(stream, code),
        forall|i: int| at <= i < code ==> !#[trigger] start_code_at(stream, i),
    ensures
        next_start_code(stream, at) == code,
    decreases code - at,
{
    if at < code {
        assert(!start_code_at(stream, at));
        lemma_first_start_code(stream, at + 1, code);
    }
}

/// An Annex B stream of a unit and what follows it.
pub open spec fn annex_b_stream(unit: Seq<u8>, more: Seq<u8>) -> Seq<u8> {
    seq![0u8, 0, 0, 1] + unit + seq![0u8, 0, 0, 1] + more
}

/// An `avcC` record of a parameter set, behind `head` and before `more`.
pub open spec fn avcc_record(head: Seq<u8>, unit: Seq<u8>, more: Seq<u8>) -> Seq<u8> {
    head + seq![(unit.len() / 256) as u8, (unit.len() % 256) as u8] + unit + more
}

/// The first unit of an Annex B stream is found whole.
proof fn lemma_first_unit(unit: Seq<u8>, more: Seq<u8>)
    requires
        unit.len() > 0,
        unit.last() != 0,
        forall|i: int| !#[trigger] start_code_at(unit, i),
    ensures
        starts_annex_b(annex_b_stream(unit, more)),
        annex_b(annex_b_stream(unit, more)).len() > 0,
        annex_b(annex_b_stream(unit, more))[0] == unit,
{
    let stream = annex_b_stream(unit, more);
    let n = unit.len() as int;
    assert forall|i: int| 0 <= i < n implies stream[4 + i] == unit[i] by {}
    assert(stream[4 + n] == 0 && stream[5 + n] == 0 && stream[6 + n] == 0 && stream[7 + n] == 1);
    assert(stream[0] == 0 && stream[1] == 0 && stream[2] == 0 && stream[3] == 1);
    assert(start_code_at(stream, 1) && !start_code_at(stream, 0));
    lemma_first_start_code(stream, 0, 1);
    assert forall|i: int| 4 <= i < 5 + n implies !#[trigger] start_code_at(stream, i) by {
        if start_code_at(stream, i) {
            if i + 3 <= 4 + n {
                assert(stream[i] == unit[i - 4]);
                assert(stream[i + 1] == unit[i - 3]);
                assert(stream[i + 2] == unit[i - 2]);
                assert(start_code_at(unit, i - 4));
            } else {
                assert(stream[3 + n] == unit[n - 1]);
            }
        }
    }
    assert(start_code_at(stream, 5 + n));
    lemma_first_start_code(stream, 4, 5 + n);
    let part = stream.subrange(4, 5 + n);
    assert(part.last() == 0);
    assert(part.drop_last() =~= unit);
    assert(without_zeros(unit) == unit);
    assert(without_zeros(part) == unit);
    assert(annex_b(stream) == units_from(stream, 4));
    assert(units_from(stream, 4) == seq![unit] + units_from(stream, 8 + n));
}

/// An Annex B stream of one unit.
pub open spec fn lone_stream(unit: Seq<u8>) -> Seq<u8> {
    seq![0u8, 0, 0, 1] + unit
}

/// The one unit of an Annex B stream is found whole, also where it ends in
/// zeros.
proof fn lemma_only_unit(unit: Seq<u8>)
    requires
        unit.len() > 0,
        forall|i: int| !#[trigger] start_code_at(unit, i),
    ensures
        starts_annex_b(lone_stream(unit)),
        annex_b(lone_stream(unit)) == seq![unit],
{
    let stream = lone_stream(unit);
    assert(stream[0] == 0 && stream[1] == 0 && stream[2] == 0 && stream[3] == 1);
    assert(start_code_at(stream, 1) && !start_code_at(stream, 0));
    lemma_first_start_code(stream, 0, 1);
    lemma_next_start_code(stream, 4);
    let next = next_start_code(stream, 4);
    if next < stream.len() {
        assert(stream[next] == unit[next - 4]);
        assert(stream[next + 1] == unit[next - 3]);
        assert(stream[next + 2] == unit[next - 2]);
        assert(start_code_at(unit, next - 4));
    }
    assert(stream.skip(4) =~= unit);
}

/// The packaging decides nothing: a configuration says the same of its
/// stream whether its parameter set comes in an `avcC` record, alone in an
/// Annex B stream, or there with more behind it, as long as zeros at its end
/// cannot be taken for those of the next start code.
pub proof fn the_packaging_decides_nothing(
    head: Seq<u8>,
    unit: Seq<u8>,
    in_record: Seq<u8>,
    in_stream: Seq<u8>,
)
    requires
        head.len() == 6,
        head[0] == 1,
        head[5] % 32 != 0,
        unit.len() <= 0xffff,
        is_sps(Codec::H264, unit),
        forall|i: int| !#[trigger] start_code_at(unit, i),
    ensures
        sequence_of(Codec::H264, avcc_record(head, unit, in_record)) == h264_set(unit),
        sequence_of(Codec::H264, lone_stream(unit)) == h264_set(unit),
        unit.last() != 0 ==> sequence_of(Codec::H264, annex_b_stream(unit, in_stream)) == h264_set(
            unit,
        ),
{
    lemma_only_unit(unit);
    if unit.last() != 0 {
        lemma_first_unit(unit, in_stream);
    }
    let record = avcc_record(head, unit, in_record);
    let n = unit.len() as int;
    assert(record[0] == 1);
    assert(record[5] == head[5]);
    assert(record[6] == (n / 256) as u8 && record[7] == (n % 256) as u8);
    assert(pair_at(record, 6) == n);
    assert(record.subrange(8, 8 + n) =~= unit);
}

/// An `hvcC` record whose first array holds a parameter set before `more`:
/// `head` ends with the number of arrays, `array` is the array's kind and how
/// many units it has.
pub open spec fn hvcc_record(head: Seq<u8>, array: Seq<u8>, unit: Seq<u8>, more: Seq<u8>) -> Seq<
    u8,
> {
    head + array + seq![(unit.len() / 256) as u8, (unit.len() % 256) as u8] + unit + more
}

/// The packaging decides nothing of HEVC either: a configuration says the same
/// of its stream whether its parameter set comes in an `hvcC` record, alone in
/// an Annex B stream, or there with more behind it, as long as zeros at its end
/// cannot be taken for those of the next start code.
pub proof fn the_packaging_of_hevc_decides_nothing(
    head: Seq<u8>,
    array: Seq<u8>,
    unit: Seq<u8>,
    in_record: Seq<u8>,
    in_stream: Seq<u8>,
)
    requires
        head.len() == 23,
        head[0] == 1,
        head[22] != 0,
        array.len() == 3,
        array[0] % 64 == 33,
        array[1] != 0 || array[2] != 0,
        unit.len() <= 0xffff,
        is_sps(Codec::Hevc, unit),
        forall|i: int| !#[trigger] start_code_at(unit, i),
    ensures
        sequence_of(Codec::Hevc, hvcc_record(head, array, unit, in_record)) == hevc_set(unit),
        sequence_of(Codec::Hevc, lone_stream(unit)) == hevc_set(unit),
        unit.last() != 0 ==> sequence_of(Codec::Hevc, annex_b_stream(unit, in_stream)) == hevc_set(
            unit,
        ),
{
    lemma_only_unit(unit);
    if unit.last() != 0 {
        lemma_first_unit(unit, in_stream);
    }
    let record = hvcc_record(head, array, unit, in_record);
    let n = unit.len() as int;
    assert(record[0] == 1 && record[22] == head[22]);
    assert(record[23] == array[0] && record[24] == array[1] && record[25] == array[2]);
    assert(record[26] == (n / 256) as u8 && record[27] == (n % 256) as u8);
    assert(pair_at(record, 26) == n);
    assert(pair_at(record, 24) > 0);
    assert(record.subrange(28, 28 + n) =~= unit);
    reveal_with_fuel(hvcc_from, 3);
}

/// A unit that an Annex B stream gives back as it is: it does not end in a zero
/// and holds no start code.
pub open spec fn stands_alone(unit: Seq<u8>) -> bool {
    unit.len() > 0 && unit.last() != 0 && forall|i: int| !#[trigger] start_code_at(unit, i)
}

/// Start codes stand where they did, behind what was put in front.
proof fn lemma_start_code_behind(front: Seq<u8>, stream: Seq<u8>, at: int)
    requires
        0 <= at <= stream.len(),
    ensures
        next_start_code(front + stream, front.len() + at) == front.len() + next_start_code(
            stream,
            at,
        ),
    decreases stream.len() - at,
{
    let whole = front + stream;
    let n = front.len() as int;
    if at + 3 <= stream.len() {
        assert(whole[n + at] == stream[at]);
        assert(whole[n + at + 1] == stream[at + 1]);
        assert(whole[n + at + 2] == stream[at + 2]);
        if !start_code_at(stream, at) {
            lemma_start_code_behind(front, stream, at + 1);
        }
    }
}

/// The units behind what was put in front are the stream's.
proof fn lemma_units_behind(front: Seq<u8>, stream: Seq<u8>, at: int)
    requires
        0 <= at <= stream.len(),
    ensures
        units_from(front + stream, front.len() + at) == units_from(stream, at),
    decreases stream.len() - at,
{
    let whole = front + stream;
    let n = front.len() as int;
    lemma_start_code_behind(front, stream, at);
    lemma_next_start_code(stream, at);
    let next = next_start_code(stream, at);
    if next >= stream.len() {
        assert(whole.skip(n + at) =~= stream.skip(at));
    } else {
        assert(start_code_at(stream, next));
        assert(whole.subrange(n + at, n + next) =~= stream.subrange(at, next));
        lemma_units_behind(front, stream, next + 3);
    }
}

/// A unit in front of an Annex B stream is its first.
pub proof fn lemma_unit_in_front(unit: Seq<u8>, stream: Seq<u8>)
    requires
        stands_alone(unit),
        starts_annex_b(stream),
    ensures
        starts_annex_b(seq![0u8, 0, 0, 1] + unit + stream),
        annex_b(seq![0u8, 0, 0, 1] + unit + stream) == seq![unit] + annex_b(stream),
{
    let front = seq![0u8, 0, 0, 1] + unit;
    let whole = front + stream;
    let n = unit.len() as int;
    let lead: int = if start_code_at(stream, 0) {
        0
    } else {
        1
    };
    assert forall|i: int| 0 <= i < n implies whole[4 + i] == unit[i] by {}
    assert forall|i: int| 0 <= i < stream.len() implies whole[4 + n + i] == stream[i] by {}
    assert(whole[0] == 0 && whole[1] == 0 && whole[2] == 0 && whole[3] == 1);
    assert(start_code_at(whole, 1) && !start_code_at(whole, 0));
    lemma_first_start_code(whole, 0, 1);
    assert(start_code_at(stream, lead));
    lemma_first_start_code(stream, 0, lead);
    assert(start_code_at(whole, 4 + n + lead));
    assert forall|i: int| 4 <= i < 4 + n + lead implies !#[trigger] start_code_at(whole, i) by {
        if start_code_at(whole, i) {
            if i + 3 <= 4 + n {
                assert(whole[i] == unit[i - 4]);
                assert(whole[i + 1] == unit[i - 3]);
                assert(whole[i + 2] == unit[i - 2]);
                assert(start_code_at(unit, i - 4));
            } else if i < 4 + n {
                assert(whole[3 + n] == unit[n - 1]);
            }
        }
    }
    lemma_first_start_code(whole, 4, 4 + n + lead);
    let part = whole.subrange(4, 4 + n + lead);
    assert(without_zeros(unit) == unit);
    if lead == 1 {
        assert(part.last() == stream[0]);
        assert(part.drop_last() =~= unit);
    } else {
        assert(part =~= unit);
    }
    assert(without_zeros(part) == unit);
    lemma_units_behind(front, stream, lead + 3);
    assert(annex_b(stream) == units_from(stream, lead + 3));
    assert(annex_b(whole) == units_from(whole, 4));
}

} // verus!
